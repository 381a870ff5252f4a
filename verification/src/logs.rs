//! The log as it is shown: the retained entries, the filter over them, and what
//! is selected.

use std::collections::HashMap;
use std::sync::Arc;
use std::time::Duration;

use regex::Regex;

use vstd::prelude::*;

use crate::filter::{
    compile_matcher, entry_matches, extend_matches, FilterRequest, FilterResult, FilterSpec,
};
use crate::log_store::LogStore;
use crate::model::{Level, LogEntry, SavedFilter};
use crate::naming::{
    collect_nameless, name_rows, names_fit, pids_of, share_names, take_named, wait_for,
};
use crate::selection::{find_row, navigated_selection, NavigationKey, RowSelection};
use crate::text::{is_blank, trim};
use crate::{filter, log_store, naming, selection, text};

verus! {

/// The bytes of a mebibyte.
pub const MIB: u64 = 1_048_576;

/// The retained log with its filter and its selection.
pub struct LogView {
    pub entries: LogStore,
    pub matches: Vec<usize>,
    pub selected: Option<usize>,
    pub selection: RowSelection,
    pub unresolved: HashMap<u32, Vec<usize>>,
    pub processes: HashMap<u32, Arc<str>>,
    pub dropped_entries: usize,
    pub memory_limit_mib: usize,
    pub package: String,
    pub min_level: Level,
    pub query: String,
    pub use_regex: bool,
    pub case_sensitive: bool,
    pub active_filter: FilterSpec,
    pub incremental_matcher: Result<Option<Regex>, String>,
    pub filter_generation: u64,
    pub filter_pending: bool,
    pub filter_dirty: bool,
    pub filter_error: Option<String>,
    pub filter_elapsed: Option<Duration>,
    pub logs_in_rate_window: usize,
}

// ---------------------------------------------------------------------------
// The state and its invariant
// ---------------------------------------------------------------------------

/// The message of a failed compilation.
pub open spec fn failure(matcher: Result<Option<Regex>, String>) -> Option<String> {
    match matcher {
        Ok(_) => None,
        Err(message) => Some(message),
    }
}

impl LogView {
    /// The memory budget in bytes.
    pub open spec fn limit(self) -> int {
        self.memory_limit_mib * MIB
    }

    /// What is left of the budget's bytes once old entries had to go.
    pub open spec fn trim_target(self) -> int {
        self.limit() * 9 / 10
    }

    /// Whether the filter in use is the one that the settings describe.
    pub open spec fn filter_applied(self) -> bool {
        &&& text::trimmed(self.active_filter.package@) == text::trimmed(self.package@)
        &&& self.active_filter.min_level == self.min_level
        &&& self.active_filter.query@ == self.query@
        &&& self.active_filter.regex == self.use_regex
        &&& self.active_filter.case_sensitive == self.case_sensitive
    }

    /// The rows are those of retained entries, and what is selected is shown.
    pub open spec fn rows_ok(self) -> bool {
        &&& filter::increasing_below(self.matches@, self.entries@.len() as int)
        &&& self.selection.rows@.subset_of(self.matches@.to_set())
        &&& self.selected matches Some(row) ==> self.matches@.contains(row)
    }

    /// Whether the matcher in use belongs to the filter in use, and the filter in
    /// use to the settings unless these have been changed since.
    pub open spec fn filter_ok(self) -> bool {
        &&& filter::matcher_outcome(self.active_filter, self.incremental_matcher)
        &&& !self.filter_dirty ==> self.filter_applied()
    }

    /// The invariant apart from the memory budget.
    pub open spec fn sound(self) -> bool {
        &&& self.entries.wf()
        &&& 16 <= self.memory_limit_mib <= 4096
        &&& self.rows_ok()
        &&& naming::waiting_ok(self.unresolved@, self.entries@)
        &&& self.filter_ok()
    }

    /// What holds between any two operations.
    pub open spec fn wf(self) -> bool {
        &&& self.sound()
        &&& self.entries.memory() <= self.limit()
    }

    /// Whether the shown rows are what the filter in use lets through. It is owed
    /// while no answer is awaited, the settings are unchanged and no error is
    /// shown.
    pub open spec fn in_sync(self) -> bool {
        !self.filter_pending && !self.filter_dirty && self.filter_error is None ==> (
        self.incremental_matcher matches Ok(matcher) ==> self.matches@ == filter::passing(
            self.entries@,
            self.active_filter,
            matcher,
            self.entries@.len() as int,
        ))
    }

    /// Whether a new entry is shown at once.
    pub open spec fn shows(self, entry: LogEntry) -> bool {
        &&& !self.filter_pending
        &&& self.incremental_matcher matches Ok(matcher) && filter::passes(
            entry,
            self.active_filter,
            matcher,
        )
    }

    /// The counters have room for the next operation.
    pub open spec fn counters_fit(self) -> bool {
        &&& self.filter_generation < u64::MAX - 1
        &&& self.logs_in_rate_window < usize::MAX
        &&& self.dropped_entries + self.entries@.len() < usize::MAX
    }

    /// Whether the counters have room for the next operation.
    pub fn can_count(&self) -> (r: bool)
        requires
            self.wf(),
        ensures
            r == self.counters_fit(),
    {
        self.filter_generation < u64::MAX - 1 && self.logs_in_rate_window < usize::MAX
            && self.dropped_entries < usize::MAX - self.entries.len()
    }

    /// The filter that the settings describe.
    pub fn current_filter(&self) -> (r: FilterSpec)
        ensures
            r.package@ == text::trimmed(self.package@),
            r.min_level == self.min_level,
            r.query == self.query,
            r.regex == self.use_regex,
            r.case_sensitive == self.case_sensitive,
    {
        FilterSpec {
            package: trim(self.package.as_str()).to_owned(),
            min_level: self.min_level,
            query: self.query.clone(),
            regex: self.use_regex,
            case_sensitive: self.case_sensitive,
        }
    }

    /// The filter was started anew with the current settings: the request holds
    /// them with a snapshot of the log, and answers to older requests no longer
    /// count.
    pub open spec fn scheduled(self, generation: u64, request: FilterRequest) -> bool {
        &&& self.filter_generation == generation
        &&& self.filter_pending
        &&& !self.filter_dirty
        &&& self.active_filter.package@ == text::trimmed(self.package@)
        &&& self.active_filter.min_level == self.min_level
        &&& self.active_filter.query == self.query
        &&& self.active_filter.regex == self.use_regex
        &&& self.active_filter.case_sensitive == self.case_sensitive
        &&& filter::matcher_outcome(self.active_filter, self.incremental_matcher)
        &&& self.filter_error == failure(self.incremental_matcher)
        &&& request.generation == generation
        &&& request.spec == self.active_filter
        &&& request.entries.wf()
        &&& request.entries@ == self.entries@
    }

    /// Starts the filter anew with the current settings.
    pub fn schedule_filter(&mut self) -> (r: FilterRequest)
        requires
            old(self).sound(),
            old(self).filter_generation < u64::MAX,
        ensures
            final(self).sound(),
            old(self).wf() ==> final(self).wf(),
            final(self).in_sync(),
            final(self).scheduled((old(self).filter_generation + 1) as u64, r),
            *final(self) == (LogView {
                filter_generation: final(self).filter_generation,
                filter_pending: true,
                filter_dirty: false,
                filter_error: final(self).filter_error,
                active_filter: final(self).active_filter,
                incremental_matcher: final(self).incremental_matcher,
                ..*old(self)
            }),
    {
        self.filter_dirty = false;
        self.filter_generation += 1;
        self.filter_pending = true;
        self.active_filter = self.current_filter();
        self.incremental_matcher = compile_matcher(&self.active_filter);
        self.filter_error = match &self.incremental_matcher {
            Ok(_) => None,
            Err(error) => Some(error.clone()),
        };
        proof {
            text::lemma_trim_idempotent(self.package@);
        }
        FilterRequest {
            generation: self.filter_generation,
            entries: Arc::new(self.entries.clone()),
            spec: self.active_filter.clone(),
        }
    }

    /// What taking in a result comes to. One of an older request is ignored; one
    /// with an error leaves the rows as they are. To the rows of any other those
    /// among the later entries are added.
    pub open spec fn absorbed(self, before: LogView, result: FilterResult) -> bool {
        if result.generation != before.filter_generation {
            self == before
        } else {
            &&& self == (LogView {
                filter_pending: false,
                filter_elapsed: Some(result.elapsed),
                filter_error: result.error,
                matches: self.matches,
                selection: self.selection,
                selected: self.selected,
                ..before
            })
            &&& if result.error is Some {
                &&& self.matches == before.matches
                &&& self.selection == before.selection
                &&& self.selected == before.selected
            } else {
                &&& self.matches@ == result.matches@ + (match before.incremental_matcher {
                    Ok(matcher) => filter::passing(
                        before.entries@,
                        before.active_filter,
                        matcher,
                        before.entries@.len() as int,
                    ).skip(
                        filter::passing(
                            before.entries@,
                            before.active_filter,
                            matcher,
                            result.processed_len as int,
                        ).len() as int,
                    ),
                    Err(_) => seq![],
                })
                &&& self.selection.rows@ == before.selection.rows@.intersect(
                    self.matches@.to_set(),
                )
                &&& self.selection.anchor == selection::visible_row(
                    before.selection.anchor,
                    self.matches@,
                )
                &&& self.selected == selection::visible_row(before.selected, self.matches@)
            }
        }
    }

    /// Takes in a result of the filter worker; one of an older request is ignored.
    /// Entries that came after the snapshot are filtered on the way.
    pub fn absorb_result(&mut self, result: FilterResult)
        requires
            old(self).wf(),
            result.generation == old(self).filter_generation && result.error is None
                ==> filter::fits_log(result, old(self).entries@.len() as int),
        ensures
            final(self).wf(),
            final(self).absorbed(*old(self), result),
    {
        if result.generation != self.filter_generation {
            return;
        }
        let FilterResult { generation: _, processed_len, matches, elapsed, error } = result;
        self.filter_pending = false;
        self.filter_elapsed = Some(elapsed);
        self.filter_error = error;
        if self.filter_error.is_some() {
            return;
        }
        let mut matches = matches;
        let ghost answered = matches@;
        let ghost total = self.entries@.len() as int;
        if let Ok(matcher) = &self.incremental_matcher {
            extend_matches(&mut matches, &self.entries, &self.active_filter, matcher, processed_len);
            proof {
                self.entries.lemma_accounting();
                filter::lemma_passing(self.entries@, self.active_filter, *matcher, total);
                filter::lemma_passing_extends(
                    self.entries@,
                    self.active_filter,
                    *matcher,
                    processed_len as int,
                    total,
                );
                let all = filter::passing(self.entries@, self.active_filter, *matcher, total);
                let head = filter::passing(
                    self.entries@,
                    self.active_filter,
                    *matcher,
                    processed_len as int,
                );
                let tail = all.skip(head.len() as int);
                assert(matches@ == answered + tail);
                assert forall|i: int| 0 <= i < tail.len() implies processed_len <= (
                #[trigger] tail[i]) < total by {
                    assert(tail[i] == all[i + head.len()]);
                }
                assert forall|i: int, j: int| 0 <= i < j < matches@.len() implies matches@[i]
                    < matches@[j] by {
                    if i >= answered.len() {
                        assert(matches@[i] == all[i - answered.len() + head.len()]);
                        assert(matches@[j] == all[j - answered.len() + head.len()]);
                    } else if j >= answered.len() {
                        assert(matches@[j] == tail[j - answered.len()]);
                    }
                }
                assert forall|i: int| 0 <= i < matches@.len() implies (#[trigger] matches@[i])
                    < total by {
                    if i >= answered.len() {
                        assert(matches@[i] == tail[i - answered.len()]);
                    }
                }
            }
        } else {
            assert(matches@ =~= answered + seq![]);
        }
        self.matches = matches;
        self.selection.retain(self.matches.as_slice());
        if let Some(row) = self.selected {
            if find_row(self.matches.as_slice(), row).is_none() {
                self.selected = None;
            }
        }
    }

    /// The oldest entries had to go: so many that the rest is within the target,
    /// and no more. Nothing is selected, the names that are missing are collected
    /// anew, and the rest is filtered anew.
    pub open spec fn trimmed_from(
        self,
        before: LogView,
        entries: Seq<LogEntry>,
        request: FilterRequest,
    ) -> bool {
        let gone = log_store::excess(entries, before.entries.lost(), before.trim_target(), 0);
        &&& 0 <= gone <= entries.len()
        &&& self.entries@ == entries.skip(gone)
        &&& self.entries.lost() == log_store::offset_after(
            before.entries.lost(),
            entries.len() as int,
            gone,
        )
        &&& self.entries.memory() <= self.trim_target()
        &&& self.dropped_entries == before.dropped_entries + gone
        &&& self.matches@.len() == 0
        &&& self.selected is None
        &&& self.selection.rows@.is_empty()
        &&& self.selection.anchor is None
        &&& forall|pid: u32| #[trigger]
            naming::waiting(self.unresolved@, pid) == naming::nameless_rows(
                self.entries@,
                pid,
                self.entries@.len() as int,
            )
        &&& self.scheduled((before.filter_generation + 1) as u64, request)
        &&& self == (LogView {
            entries: self.entries,
            matches: self.matches,
            selected: None,
            selection: self.selection,
            unresolved: self.unresolved,
            dropped_entries: self.dropped_entries,
            filter_generation: self.filter_generation,
            filter_pending: true,
            filter_dirty: false,
            filter_error: self.filter_error,
            active_filter: self.active_filter,
            incremental_matcher: self.incremental_matcher,
            ..before
        })
    }

    /// Drops the oldest entries of a log that is over its budget.
    fn trim_old_entries(&mut self) -> (r: FilterRequest)
        requires
            old(self).sound(),
            old(self).entries.memory() > old(self).limit(),
            old(self).filter_generation < u64::MAX,
            old(self).dropped_entries + old(self).entries@.len() <= usize::MAX,
        ensures
            final(self).wf(),
            final(self).in_sync(),
            final(self).trimmed_from(*old(self), old(self).entries@, r),
    {
        let ghost before = *self;
        proof {
            self.entries.lemma_accounting();
        }
        let target: usize = (self.memory_limit_mib as u64 * MIB * 9 / 10) as usize;
        assert(target == before.trim_target());
        let removed = self.entries.trim_to_bytes(target);
        self.dropped_entries += removed;
        self.matches = Vec::new();
        self.selected = None;
        self.selection.clear();
        self.unresolved = collect_nameless(&self.entries);
        proof {
            self.entries.lemma_accounting();
            assert forall|pid: u32|
                {
                    &&& selection::increasing(#[trigger] naming::waiting(self.unresolved@, pid))
                    &&& forall|k: int|
                        0 <= k < naming::waiting(self.unresolved@, pid).len() ==> {
                            let row = #[trigger] naming::waiting(self.unresolved@, pid)[k];
                            row < self.entries@.len() && naming::nameless(self.entries@[row as int])
                                && self.entries@[row as int].pid == pid
                        }
                } by {
                naming::lemma_nameless_rows(self.entries@, pid, self.entries@.len() as int);
            }
        }
        self.schedule_filter()
    }

    /// The entry as it is kept: with the name of its process, where it is known.
    pub open spec fn named_entry(self, entry: LogEntry) -> LogEntry {
        if entry.pid != 0 && self.processes@.contains_key(entry.pid) {
            entry.with_process(self.processes@[entry.pid])
        } else {
            entry
        }
    }

    /// Whether one more entry can be accounted for.
    pub fn can_append(&self, entry: &LogEntry) -> (r: bool)
        requires
            self.wf(),
        ensures
            r == (log_store::memory_of(
                self.entries@.push(self.named_entry(*entry)),
                self.entries.lost(),
            ) <= usize::MAX),
    {
        let mut named = entry.clone();
        if named.pid != 0 {
            if let Some(process) = self.processes.get(&named.pid) {
                named.process = Some(process.clone());
            }
        }
        self.entries.has_room(&named)
    }

    /// What appending an entry comes to. It is named where its process is known,
    /// shown at once where it passes the filter, and else waits. Over the memory
    /// budget the oldest entries go.
    pub open spec fn appended_to(
        self,
        before: LogView,
        entry: LogEntry,
        r: Option<FilterRequest>,
    ) -> bool {
        let kept = before.named_entry(entry);
        let grown = before.entries@.push(kept);
        let row = before.entries@.len() as usize;
        let counted = LogView {
            logs_in_rate_window: (before.logs_in_rate_window + 1) as usize,
            ..before
        };
        if log_store::memory_of(grown, before.entries.lost()) <= before.limit() {
            &&& r is None
            &&& self.entries@ == grown
            &&& self.entries.lost() == before.entries.lost()
            &&& self.matches@ == (if before.shows(kept) {
                before.matches@.push(row)
            } else {
                before.matches@
            })
            &&& forall|pid: u32| #[trigger]
                naming::waiting(self.unresolved@, pid) == (if naming::nameless(kept) && pid
                    == kept.pid {
                    naming::waiting(before.unresolved@, pid).push(row)
                } else {
                    naming::waiting(before.unresolved@, pid)
                })
            &&& self == (LogView {
                entries: self.entries,
                matches: self.matches,
                unresolved: self.unresolved,
                ..counted
            })
        } else {
            r matches Some(request) && self.trimmed_from(counted, grown, request)
        }
    }

    /// Appends an entry. Over the memory budget the oldest entries go, and the
    /// request for the filter over the rest is returned.
    pub fn append_entry(&mut self, entry: LogEntry) -> (r: Option<FilterRequest>)
        requires
            old(self).wf(),
            old(self).counters_fit(),
            log_store::memory_of(
                old(self).entries@.push(old(self).named_entry(entry)),
                old(self).entries.lost(),
            ) <= usize::MAX,
        ensures
            final(self).wf(),
            old(self).in_sync() ==> final(self).in_sync(),
            final(self).appended_to(*old(self), entry, r),
    {
        let ghost before = *self;
        let mut entry = entry;
        if entry.pid != 0 {
            if let Some(process) = self.processes.get(&entry.pid) {
                entry.process = Some(process.clone());
            }
        }
        let ghost kept = entry;
        proof {
            self.entries.lemma_accounting();
        }
        let row = self.entries.len();
        let matches = !self.filter_pending && match &self.incremental_matcher {
            Ok(matcher) => entry_matches(&entry, &self.active_filter, filter::as_matcher(matcher)),
            Err(_) => false,
        };
        if entry.pid != 0 && entry.process.is_none() {
            wait_for(&mut self.unresolved, entry.pid, row);
        }
        self.entries.push(entry);
        if matches {
            self.matches.push(row);
        }
        self.logs_in_rate_window += 1;
        proof {
            before.lemma_append_keeps(*self, kept);
            self.entries.lemma_accounting();
        }
        if self.entries.memory_bytes() as u64 > self.memory_limit_mib as u64 * MIB {
            Some(self.trim_old_entries())
        } else {
            None
        }
    }

    /// Appending an entry keeps the invariant and what is shown in step.
    proof fn lemma_append_keeps(self, after: LogView, kept: LogEntry)
        requires
            self.wf(),
            after.entries.wf(),
            after.entries@ == self.entries@.push(kept),
            self.entries@.len() < usize::MAX,
            after.matches@ == (if self.shows(kept) {
                self.matches@.push(self.entries@.len() as usize)
            } else {
                self.matches@
            }),
            forall|pid: u32| #[trigger]
                naming::waiting(after.unresolved@, pid) == (if naming::nameless(kept) && pid == kept.pid {
                    naming::waiting(self.unresolved@, pid).push(self.entries@.len() as usize)
                } else {
                    naming::waiting(self.unresolved@, pid)
                }),
            naming::none_idle(after.unresolved@),
            after == (LogView {
                entries: after.entries,
                matches: after.matches,
                unresolved: after.unresolved,
                logs_in_rate_window: after.logs_in_rate_window,
                ..self
            }),
        ensures
            after.sound(),
            self.in_sync() ==> after.in_sync(),
    {
        let row = self.entries@.len() as usize;
        assert forall|v: usize| self.matches@.contains(v) implies after.matches@.contains(v) by {
            let i = choose|i: int| 0 <= i < self.matches@.len() && self.matches@[i] == v;
            assert(after.matches@[i] == v);
        }
        assert(self.matches@.to_set().subset_of(after.matches@.to_set()));
        assert forall|pid: u32|
            {
                &&& selection::increasing(#[trigger] naming::waiting(after.unresolved@, pid))
                &&& forall|k: int|
                    0 <= k < naming::waiting(after.unresolved@, pid).len() ==> {
                        let row = #[trigger] naming::waiting(after.unresolved@, pid)[k];
                        row < after.entries@.len() && naming::nameless(after.entries@[row as int])
                            && after.entries@[row as int].pid == pid
                    }
            } by {
            let old_rows = naming::waiting(self.unresolved@, pid);
            let new_rows = naming::waiting(after.unresolved@, pid);
            assert(selection::increasing(old_rows));
            assert forall|k: int| 0 <= k < new_rows.len() implies ({
                let row = #[trigger] new_rows[k];
                row < after.entries@.len() && naming::nameless(after.entries@[row as int])
                    && after.entries@[row as int].pid == pid
            }) by {
                if k < old_rows.len() {
                    assert(old_rows[k] == new_rows[k]);
                }
            }
        }
        if let Ok(matcher) = self.incremental_matcher {
            filter::lemma_passing_prefix(
                self.entries@,
                after.entries@,
                self.active_filter,
                matcher,
                row as int,
            );
        }
    }

    /// Whether a process table can be taken in: however it is shared, the named
    /// entries can be accounted for.
    pub open spec fn names_fit(self, table: Map<u32, String>) -> bool {
        naming::fits_named(self.entries, self.unresolved@, table)
    }

    /// Whether a process table can be taken in.
    pub fn can_name(&self, table: &HashMap<u32, String>) -> (r: bool)
        requires
            self.wf(),
        ensures
            r == self.names_fit(table@),
    {
        names_fit(&self.entries, &self.unresolved, table)
    }

    /// What taking in a process table comes to. The entries that waited for it are
    /// named, and filtered anew where a package is asked for. Over the memory budget
    /// the oldest entries go.
    pub open spec fn named_from(
        self,
        before: LogView,
        table: Map<u32, String>,
        r: Option<FilterRequest>,
    ) -> bool {
        let named = naming::resolved(before.entries@, before.unresolved@, self.processes@);
        let any = naming::any_named(before.unresolved@, table.dom());
        let filtered = any && !text::blank(before.package@);
        let generation = (before.filter_generation + (if filtered {
            1int
        } else {
            0int
        })) as u64;
        let bytes = log_store::memory_of(named, before.entries.lost());
        &&& naming::same_names(self.processes@, table)
        &&& if !any || bytes <= before.limit() {
            &&& self.entries@ == named
            &&& self.entries.lost() == before.entries.lost()
            &&& forall|pid: u32| #[trigger]
                naming::waiting(self.unresolved@, pid) == (if table.contains_key(pid) {
                    seq![]
                } else {
                    naming::waiting(before.unresolved@, pid)
                })
            &&& filtered ==> (r matches Some(request) && self.scheduled(generation, request))
            &&& !filtered ==> r is None && self.same_filter(before)
            &&& self == (LogView {
                entries: self.entries,
                unresolved: self.unresolved,
                processes: self.processes,
                filter_generation: self.filter_generation,
                filter_pending: self.filter_pending,
                filter_dirty: self.filter_dirty,
                filter_error: self.filter_error,
                active_filter: self.active_filter,
                incremental_matcher: self.incremental_matcher,
                ..before
            })
        } else {
            r matches Some(request) && self.trimmed_from(
                LogView { filter_generation: generation, processes: self.processes, ..before },
                named,
                request,
            )
        }
    }

    /// Takes in a process table: names the entries that waited for it, and filters
    /// anew where a package is asked for.
    #[verifier::rlimit(60)]
    pub fn update_processes(&mut self, table: HashMap<u32, String>) -> (r: Option<FilterRequest>)
        requires
            old(self).wf(),
            old(self).counters_fit(),
            old(self).names_fit(table@),
        ensures
            final(self).wf(),
            old(self).in_sync() ==> final(self).in_sync(),
            final(self).named_from(*old(self), table@, r),
    {
        let ghost before = *self;
        let pids = pids_of(&table);
        let names = share_names(&table);
        let ghost known = names@;
        let (list, any) = take_named(&mut self.unresolved, &names, &pids);
        self.processes = names;
        proof {
            before.entries.lemma_accounting();
            naming::lemma_still_waiting(before.entries@, before.unresolved@, known, self.unresolved@);
            if any {
                let pid = choose|pid: u32|
                    #[trigger] known.contains_key(pid) && before.unresolved@.contains_key(pid);
                assert(known.dom().contains(pid));
                assert(naming::any_named(before.unresolved@, table@.dom()));
            } else {
                assert(!naming::any_named(before.unresolved@, table@.dom())) by {
                    if naming::any_named(before.unresolved@, table@.dom()) {
                        let pid = choose|pid: u32| #[trigger]
                            table@.dom().contains(pid) && naming::waiting(before.unresolved@, pid).len()
                                > 0;
                        assert(known.contains_key(pid));
                    }
                }
                naming::lemma_nothing_named(before.entries@, before.unresolved@, known);
            }
        }
        if !any {
            return None;
        }
        proof {
            naming::lemma_naming(
                before.entries@,
                before.entries.lost(),
                before.unresolved@,
                known,
                pids@,
                list@,
            );
        }
        name_rows(&mut self.entries, &list);
        proof {
            before.lemma_naming_keeps(*self);
            self.entries.lemma_accounting();
        }
        let mut request: Option<FilterRequest> = None;
        if !is_blank(self.package.as_str()) {
            request = Some(self.schedule_filter());
        }
        if self.entries.memory_bytes() as u64 > self.memory_limit_mib as u64 * MIB {
            request = Some(self.trim_old_entries());
        }
        request
    }

    /// Whether nothing about the filter changed.
    pub open spec fn same_filter(self, before: LogView) -> bool {
        &&& self.filter_generation == before.filter_generation
        &&& self.filter_pending == before.filter_pending
        &&& self.filter_dirty == before.filter_dirty
        &&& self.filter_error == before.filter_error
        &&& self.active_filter == before.active_filter
        &&& self.incremental_matcher == before.incremental_matcher
    }

    /// Naming processes keeps the invariant, and what is shown in step where no
    /// package is asked for.
    proof fn lemma_naming_keeps(self, after: LogView)
        requires
            self.wf(),
            after.entries.wf(),
            after.entries@ == naming::resolved(
                self.entries@,
                self.unresolved@,
                after.processes@,
            ),
            naming::waiting_ok(after.unresolved@, after.entries@),
            after == (LogView {
                entries: after.entries,
                unresolved: after.unresolved,
                processes: after.processes,
                ..self
            }),
        ensures
            after.sound(),
            self.in_sync() && text::blank(self.package@) ==> after.in_sync(),
    {
        if !self.filter_dirty && text::blank(self.package@) {
            text::lemma_trimmed(self.package@);
            text::lemma_trimmed(self.active_filter.package@);
            if let Ok(matcher) = self.incremental_matcher {
                assert forall|i: int| 0 <= i < self.entries@.len() implies filter::passes(
                    #[trigger] self.entries@[i],
                    self.active_filter,
                    matcher,
                ) == filter::passes(after.entries@[i], self.active_filter, matcher) by {
                    let entry = self.entries@[i];
                    if naming::can_be_named(
                        self.entries@,
                        self.unresolved@,
                        after.processes@,
                        i,
                    ) {
                        filter::lemma_process_matters_to_packages(
                            entry,
                            after.processes@[entry.pid],
                            self.active_filter,
                            matcher,
                        );
                    }
                }
                filter::lemma_passing_prefix(
                    self.entries@,
                    after.entries@,
                    self.active_filter,
                    matcher,
                    self.entries@.len() as int,
                );
            }
        }
    }

    /// An empty log with the given settings.
    pub fn new(
        package: String,
        min_level: Level,
        query: String,
        use_regex: bool,
        case_sensitive: bool,
        memory_limit_mib: usize,
    ) -> (r: LogView)
        requires
            16 <= memory_limit_mib <= 4096,
        ensures
            r.wf(),
            r.in_sync(),
            r.entries@.len() == 0,
            r.entries.lost() == 0,
            r.matches@.len() == 0,
            r.selected is None,
            r.selection.rows@.is_empty(),
            r.selection.anchor is None,
            r.unresolved@ == Map::<u32, Vec<usize>>::empty(),
            r.processes@ == Map::<u32, Arc<str>>::empty(),
            r.dropped_entries == 0,
            r.memory_limit_mib == memory_limit_mib,
            r.package == package,
            r.min_level == min_level,
            r.query == query,
            r.use_regex == use_regex,
            r.case_sensitive == case_sensitive,
            r.active_filter == (FilterSpec {
                package,
                min_level,
                query,
                regex: use_regex,
                case_sensitive,
            }),
            r.filter_generation == 0,
            !r.filter_pending,
            !r.filter_dirty,
            r.filter_error is None,
            r.filter_elapsed is None,
            r.logs_in_rate_window == 0,
    {
        let active_filter = FilterSpec {
            package: package.clone(),
            min_level,
            query: query.clone(),
            regex: use_regex,
            case_sensitive,
        };
        let incremental_matcher = compile_matcher(&active_filter);
        let view = LogView {
            entries: LogStore::default(),
            matches: Vec::new(),
            selected: None,
            selection: RowSelection::default(),
            unresolved: HashMap::new(),
            processes: HashMap::new(),
            dropped_entries: 0,
            memory_limit_mib,
            package,
            min_level,
            query,
            use_regex,
            case_sensitive,
            active_filter,
            incremental_matcher,
            filter_generation: 0,
            filter_pending: false,
            filter_dirty: false,
            filter_error: None,
            filter_elapsed: None,
            logs_in_rate_window: 0,
        };
        proof {
            view.entries.lemma_empty();
            if view.incremental_matcher is Ok {
                assert(view.matches@ =~= filter::passing(
                    view.entries@,
                    view.active_filter,
                    view.incremental_matcher->Ok_0,
                    0,
                ));
            }
        }
        view
    }

    /// Empties the view. The settings stay, and answers to older filter requests
    /// no longer count.
    pub fn clear_logs(&mut self)
        requires
            old(self).wf(),
            old(self).filter_generation < u64::MAX,
        ensures
            final(self).wf(),
            final(self).in_sync(),
            final(self).entries@.len() == 0,
            final(self).entries.lost() == 0,
            final(self).matches@.len() == 0,
            final(self).selection.rows@.is_empty(),
            final(self).selection.anchor is None,
            final(self).unresolved@ == Map::<u32, Vec<usize>>::empty(),
            *final(self) == (LogView {
                entries: final(self).entries,
                matches: final(self).matches,
                selected: None,
                selection: final(self).selection,
                unresolved: final(self).unresolved,
                dropped_entries: 0,
                filter_generation: (old(self).filter_generation + 1) as u64,
                filter_pending: false,
                filter_elapsed: None,
                ..*old(self)
            }),
    {
        self.entries = LogStore::default();
        self.matches = Vec::new();
        self.selected = None;
        self.selection.clear();
        self.unresolved = HashMap::new();
        self.dropped_entries = 0;
        self.filter_generation += 1;
        self.filter_pending = false;
        self.filter_elapsed = None;
        proof {
            self.entries.lemma_empty();
            if self.incremental_matcher is Ok {
                assert(self.matches@ =~= filter::passing(
                    self.entries@,
                    self.active_filter,
                    self.incremental_matcher->Ok_0,
                    0,
                ));
            }
        }
    }

    /// Forgets the process table and the rows that wait for one.
    pub fn forget_processes(&mut self)
        requires
            old(self).wf(),
        ensures
            final(self).wf(),
            old(self).in_sync() ==> final(self).in_sync(),
            final(self).processes@ == Map::<u32, Arc<str>>::empty(),
            final(self).unresolved@ == Map::<u32, Vec<usize>>::empty(),
            *final(self) == (LogView {
                processes: final(self).processes,
                unresolved: final(self).unresolved,
                ..*old(self)
            }),
    {
        self.processes.clear();
        self.unresolved.clear();
    }

    /// Changes the memory budget; over the new one the oldest entries go.
    pub fn set_memory_limit(&mut self, limit_mib: usize) -> (r: Option<FilterRequest>)
        requires
            old(self).wf(),
            old(self).counters_fit(),
            16 <= limit_mib <= 4096,
        ensures
            final(self).wf(),
            old(self).in_sync() ==> final(self).in_sync(),
            final(self).memory_limit_mib == limit_mib,
            old(self).entries.memory() <= limit_mib * MIB ==> r is None && *final(self) == (
            LogView { memory_limit_mib: limit_mib, ..*old(self) }),
            old(self).entries.memory() > limit_mib * MIB ==> (r matches Some(request)
                && final(self).trimmed_from(
                LogView { memory_limit_mib: limit_mib, ..*old(self) },
                old(self).entries@,
                request,
            )),
    {
        self.memory_limit_mib = limit_mib;
        if self.entries.memory_bytes() as u64 > limit_mib as u64 * MIB {
            Some(self.trim_old_entries())
        } else {
            None
        }
    }

    /// Marks the settings as changed; they take effect when the filter is started
    /// anew.
    pub fn queue_filter(&mut self)
        requires
            old(self).wf(),
        ensures
            final(self).wf(),
            final(self).in_sync(),
            *final(self) == (LogView { filter_dirty: true, ..*old(self) }),
    {
        self.filter_dirty = true;
    }

    /// Changes the package that is asked for.
    pub fn set_package(&mut self, package: String)
        requires
            old(self).wf(),
        ensures
            final(self).wf(),
            final(self).in_sync(),
            *final(self) == (LogView { package, filter_dirty: true, ..*old(self) }),
    {
        self.package = package;
        self.filter_dirty = true;
    }

    /// Changes the query.
    pub fn set_query(&mut self, query: String)
        requires
            old(self).wf(),
        ensures
            final(self).wf(),
            final(self).in_sync(),
            *final(self) == (LogView { query, filter_dirty: true, ..*old(self) }),
    {
        self.query = query;
        self.filter_dirty = true;
    }

    /// Changes how the query is read.
    pub fn set_query_mode(&mut self, use_regex: bool, case_sensitive: bool)
        requires
            old(self).wf(),
        ensures
            final(self).wf(),
            final(self).in_sync(),
            *final(self) == (LogView {
                use_regex,
                case_sensitive,
                filter_dirty: true,
                ..*old(self)
            }),
    {
        self.use_regex = use_regex;
        self.case_sensitive = case_sensitive;
        self.filter_dirty = true;
    }

    /// Changes the minimum level.
    pub fn set_min_level(&mut self, min_level: Level)
        requires
            old(self).wf(),
        ensures
            final(self).wf(),
            final(self).in_sync(),
            *final(self) == (LogView { min_level, filter_dirty: true, ..*old(self) }),
    {
        self.min_level = min_level;
        self.filter_dirty = true;
    }

    /// Takes over the settings of a saved filter and starts the filter anew.
    pub fn apply_saved_filter(&mut self, saved: SavedFilter) -> (r: FilterRequest)
        requires
            old(self).wf(),
            old(self).filter_generation < u64::MAX,
        ensures
            final(self).wf(),
            final(self).in_sync(),
            final(self).scheduled((old(self).filter_generation + 1) as u64, r),
            *final(self) == (LogView {
                package: saved.package,
                min_level: saved.min_level,
                query: saved.query,
                use_regex: saved.regex,
                case_sensitive: saved.case_sensitive,
                filter_generation: final(self).filter_generation,
                filter_pending: true,
                filter_dirty: false,
                filter_error: final(self).filter_error,
                active_filter: final(self).active_filter,
                incremental_matcher: final(self).incremental_matcher,
                ..*old(self)
            }),
    {
        self.filter_dirty = true;
        self.package = saved.package;
        self.min_level = saved.min_level;
        self.query = saved.query;
        self.use_regex = saved.regex;
        self.case_sensitive = saved.case_sensitive;
        self.schedule_filter()
    }

    /// Picks a row, as a click does.
    pub fn pick_row(&mut self, row: usize, extend: bool, toggle: bool)
        requires
            old(self).wf(),
        ensures
            final(self).wf(),
            old(self).in_sync() ==> final(self).in_sync(),
            final(self).selection.rows@ == selection::picked_rows(
                old(self).selection.rows@,
                old(self).selection.anchor,
                old(self).matches@,
                row,
                extend,
                toggle,
            ),
            final(self).selection.anchor == selection::picked_anchor(
                old(self).selection.anchor,
                old(self).matches@,
                row,
                extend,
            ),
            final(self).selected == (if final(self).selection.rows@.contains(row) {
                Some(row)
            } else {
                None::<usize>
            }),
            *final(self) == (LogView {
                selection: final(self).selection,
                selected: final(self).selected,
                ..*old(self)
            }),
    {
        proof {
            selection::lemma_pick_stays_visible(
                self.selection.rows@,
                self.selection.anchor,
                self.matches@,
                row,
                extend,
                toggle,
            );
        }
        self.selection.select(self.matches.as_slice(), row, extend, toggle);
        self.selected = if self.selection.contains(row) {
            assert(self.matches@.to_set().contains(row));
            Some(row)
        } else {
            None
        };
    }

    /// Selects every row that is shown.
    pub fn select_all(&mut self)
        requires
            old(self).wf(),
        ensures
            final(self).wf(),
            old(self).in_sync() ==> final(self).in_sync(),
            final(self).selection.rows@ == old(self).matches@.to_set(),
            final(self).selection.anchor == (if old(self).matches@.len() == 0 {
                None::<usize>
            } else {
                Some(old(self).matches@[0])
            }),
            final(self).selected == (if old(self).selected is None && old(self).matches@.len()
                > 0 {
                Some(old(self).matches@[0])
            } else {
                old(self).selected
            }),
            *final(self) == (LogView {
                selection: final(self).selection,
                selected: final(self).selected,
                ..*old(self)
            }),
    {
        self.selection.select_all(self.matches.as_slice());
        if self.selected.is_none() && self.matches.len() > 0 {
            self.selected = Some(self.matches[0]);
        }
    }

    /// Moves the selection with a key.
    pub fn navigate(&mut self, key: NavigationKey, extend: bool)
        requires
            old(self).wf(),
        ensures
            final(self).wf(),
            old(self).in_sync() ==> final(self).in_sync(),
            final(self).selected == selection::navigated(
                old(self).matches@,
                old(self).selected,
                key,
            ),
            final(self).selected matches Some(row) ==> {
                &&& final(self).selection.rows@ == selection::picked_rows(
                    old(self).selection.rows@,
                    old(self).selection.anchor,
                    old(self).matches@,
                    row,
                    extend,
                    false,
                )
                &&& final(self).selection.anchor == selection::picked_anchor(
                    old(self).selection.anchor,
                    old(self).matches@,
                    row,
                    extend,
                )
            },
            final(self).selected is None ==> final(self).selection == old(self).selection,
            *final(self) == (LogView {
                selection: final(self).selection,
                selected: final(self).selected,
                ..*old(self)
            }),
    {
        proof {
            selection::lemma_navigation_stays_visible(self.matches@, self.selected, key);
        }
        self.selected = navigated_selection(self.matches.as_slice(), self.selected, key);
        if let Some(row) = self.selected {
            proof {
                selection::lemma_pick_stays_visible(
                    self.selection.rows@,
                    self.selection.anchor,
                    self.matches@,
                    row,
                    extend,
                    false,
                );
            }
            self.selection.select(self.matches.as_slice(), row, extend, false);
        }
    }

    /// Deselects everything.
    pub fn clear_selection(&mut self)
        requires
            old(self).wf(),
        ensures
            final(self).wf(),
            old(self).in_sync() ==> final(self).in_sync(),
            final(self).selection.rows@.is_empty(),
            final(self).selection.anchor is None,
            *final(self) == (LogView {
                selection: final(self).selection,
                selected: None,
                ..*old(self)
            }),
    {
        self.selected = None;
        self.selection.clear();
    }

    /// The selected entries in full.
    pub fn copy_selected(&self) -> (r: String)
        requires
            self.wf(),
        ensures
            r@ == selection::joined(selection::ascending(self.selection.rows@), self.entries@),
    {
        proof {
            assert forall|row: usize| #[trigger] self.selection.rows@.contains(row) implies row
                < self.entries@.len() by {
                assert(self.matches@.to_set().contains(row));
                let i = choose|i: int| 0 <= i < self.matches@.len() && self.matches@[i] == row;
                assert(self.matches@[i] < self.entries@.len());
            }
        }
        self.selection.copy_text(&self.entries)
    }

    /// The entry that the details show.
    pub fn selected_entry(&self) -> (r: Option<&LogEntry>)
        requires
            self.wf(),
        ensures
            match self.selected {
                Some(row) => row < self.entries@.len() && r == Some(&self.entries@[row as int]),
                None => r is None,
            },
    {
        match self.selected {
            None => None,
            Some(row) => {
                proof {
                    let i = choose|i: int| 0 <= i < self.matches@.len() && self.matches@[i] == row;
                    assert(self.matches@[i] < self.entries@.len());
                }
                Some(self.entries.get(row))
            },
        }
    }
}

/// What the view promises: once no answer of the filter is awaited and no error is
/// shown, exactly the entries that pass the current settings are shown, in the
/// order of the log.
pub proof fn lemma_idle_view_shows_the_filter(view: LogView, row: usize)
    requires
        view.wf(),
        view.in_sync(),
        !view.filter_pending,
        !view.filter_dirty,
        view.filter_error is None,
        view.incremental_matcher is Ok,
        row < view.entries@.len(),
    ensures
        view.matches@.contains(row) <==> filter::asked_for(
            view.entries@[row as int],
            text::trimmed(view.package@),
            view.min_level,
            view.query@,
            view.use_regex,
            view.case_sensitive,
        ),
        view.query@.len() > 0 && !view.use_regex && view.matches@.contains(row) ==> {
            let message = view.entries@[row as int].message@;
            if view.case_sensitive {
                crate::pattern::contains_run(message, view.query@)
            } else {
                crate::pattern::contains_similar_run(message, view.query@)
            }
        },
        text::blank(view.package@) && view.min_level == Level::Verbose && !view.use_regex
            && crate::pattern::contains_run(view.entries@[row as int].message@, view.query@)
            ==> view.matches@.contains(row),
        selection::increasing(view.matches@),
{
    view.entries.lemma_accounting();
    let matcher = view.incremental_matcher->Ok_0;
    filter::lemma_passing(
        view.entries@,
        view.active_filter,
        matcher,
        view.entries@.len() as int,
    );
    text::lemma_trimmed(view.package@);
    filter::lemma_filter_lets_through(
        view.entries@[row as int],
        view.active_filter,
        view.incremental_matcher,
    );
}

/// What a trim comes to, in numbers: of a budget in mebibytes at most nine tenths are
/// left, and where entries had to go, the log with the last of them still in it was over
/// nine tenths. Only the oldest entries go, and each is counted.
pub proof fn lemma_trim_leaves_nine_tenths(
    before: LogView,
    after: LogView,
    entries: Seq<LogEntry>,
    request: FilterRequest,
)
    requires
        after.trimmed_from(before, entries, request),
    ensures
        ({
            let budget = before.memory_limit_mib * 1_048_576;
            let gone = entries.len() - after.entries@.len();
            &&& gone >= 0
            &&& after.entries@ == entries.skip(gone)
            &&& after.dropped_entries == before.dropped_entries + gone
            &&& after.entries.memory() * 10 <= budget * 9
            &&& gone > 0 ==> log_store::memory_of(
                entries.skip(gone - 1),
                log_store::offset_after(before.entries.lost(), entries.len() as int, gone - 1),
            ) * 10 > budget * 9
        }),
{
    let gone = entries.len() - after.entries@.len();
    if gone > 0 {
        log_store::lemma_excess_is_least(
            entries,
            before.entries.lost(),
            before.trim_target(),
            0,
            gone - 1,
        );
    }
}

/// The log never takes more than its budget, and as long as a new entry leaves it within
/// the budget nothing goes: the entry is added behind the others.
pub proof fn lemma_budget_is_used(
    before: LogView,
    after: LogView,
    entry: LogEntry,
    r: Option<FilterRequest>,
)
    requires
        after.wf(),
        after.appended_to(before, entry, r),
    ensures
        after.entries.memory() <= after.memory_limit_mib * 1_048_576,
        after.memory_limit_mib == before.memory_limit_mib,
        log_store::memory_of(
            before.entries@.push(before.named_entry(entry)),
            before.entries.lost(),
        ) <= before.memory_limit_mib * 1_048_576 ==> {
            &&& after.entries@ == before.entries@.push(before.named_entry(entry))
            &&& after.dropped_entries == before.dropped_entries
            &&& r is None
        },
{
}

/// The request for a new filter holds the settings as they are, and the whole log.
pub proof fn lemma_request_holds_the_settings(
    view: LogView,
    generation: u64,
    request: FilterRequest,
)
    requires
        view.scheduled(generation, request),
    ensures
        request.generation == view.filter_generation,
        request.spec.package@ == text::trimmed(view.package@),
        request.spec.min_level == view.min_level,
        request.spec.query@ == view.query@,
        request.spec.regex == view.use_regex,
        request.spec.case_sensitive == view.case_sensitive,
        request.entries@ == view.entries@,
        view.filter_pending,
        !view.filter_dirty,
        view.filter_error is Some <==> view.incremental_matcher is Err,
        view.incremental_matcher matches Err(message) ==> view.filter_error == Some(message),
{
}

/// Taking in an answer: one that is not for the latest request changes nothing; one with
/// an error shows the error and leaves the rows; any other brings its rows, behind them
/// those of later entries, and of the selection what is shown stays.
pub proof fn lemma_answers_are_taken_in(
    before: LogView,
    after: LogView,
    result: FilterResult,
    row: usize,
)
    requires
        before.wf(),
        after.absorbed(before, result),
        result.processed_len <= before.entries@.len(),
    ensures
        result.generation != before.filter_generation ==> after == before,
        result.generation == before.filter_generation ==> {
            &&& !after.filter_pending
            &&& after.filter_elapsed == Some(result.elapsed)
            &&& after.filter_error == result.error
            &&& after == (LogView {
                filter_pending: false,
                filter_elapsed: Some(result.elapsed),
                filter_error: result.error,
                matches: after.matches,
                selection: after.selection,
                selected: after.selected,
                ..before
            })
            &&& result.error is Some ==> after.matches == before.matches && after.selection
                == before.selection && after.selected == before.selected
            &&& result.error is None ==> {
                let n = result.matches@.len() as int;
                &&& n <= after.matches@.len()
                &&& after.matches@.take(n) == result.matches@
                &&& forall|i: int|
                    n <= i < after.matches@.len() ==> result.processed_len <= (
                    #[trigger] after.matches@[i]) < before.entries@.len()
                &&& after.selection.rows@.contains(row) <==> before.selection.rows@.contains(row)
                    && after.matches@.contains(row)
                &&& after.selected == Some(row) <==> before.selected == Some(row)
                    && after.matches@.contains(row)
                &&& after.selection.anchor == Some(row) <==> before.selection.anchor == Some(row)
                    && after.matches@.contains(row)
            }
        },
{
    if result.generation == before.filter_generation && result.error is None {
        let n = result.matches@.len() as int;
        assert(after.matches@.take(n) =~= result.matches@);
        assert(after.matches@.to_set().contains(row) <==> after.matches@.contains(row));
        before.entries.lemma_accounting();
        if let Ok(matcher) = before.incremental_matcher {
            let from = result.processed_len as int;
            let total = before.entries@.len() as int;
            let spec = before.active_filter;
            filter::lemma_passing_extends(before.entries@, spec, matcher, from, total);
            let all = filter::passing(before.entries@, spec, matcher, total);
            let head = filter::passing(before.entries@, spec, matcher, from).len() as int;
            assert forall|i: int| n <= i < after.matches@.len() implies result.processed_len <= (
            #[trigger] after.matches@[i]) < before.entries@.len() by {
                assert(after.matches@[i] == all[i - n + head]);
            }
        }
    }
}

/// A new entry, as long as nothing has to go for it: it stands at the end with the name
/// of its process where that is known, it is shown at once exactly where it is what the
/// settings ask for, it waits for a name where it has none, and of the other rows none
/// appears or goes.
pub proof fn lemma_new_entry_is_shown_at_once(
    before: LogView,
    after: LogView,
    entry: LogEntry,
    r: Option<FilterRequest>,
    row: usize,
    pid: u32,
)
    requires
        before.wf(),
        after.appended_to(before, entry, r),
        after.dropped_entries == before.dropped_entries,
        after.entries@.len() == before.entries@.len() + 1,
        r is None,
        before.counters_fit(),
        !before.filter_pending,
        !before.filter_dirty,
        before.incremental_matcher is Ok,
    ensures
        ({
            let last = after.entries@.last();
            let known = entry.pid != 0 && before.processes@.contains_key(entry.pid);
            &&& after.entries@.drop_last() == before.entries@
            &&& known ==> last.process == Some(before.processes@[entry.pid])
            &&& !known ==> last.process == entry.process
            &&& last.time == entry.time && last.pid == entry.pid && last.tid == entry.tid
                && last.tag == entry.tag && last.level == entry.level && last.message
                == entry.message
            &&& after.matches@.contains(row) <==> before.matches@.contains(row) || (row
                == before.entries@.len() && filter::asked_for(
                last,
                text::trimmed(before.package@),
                before.min_level,
                before.query@,
                before.use_regex,
                before.case_sensitive,
            ))
            &&& naming::waiting(after.unresolved@, pid).contains(row) <==> naming::waiting(
                before.unresolved@,
                pid,
            ).contains(row) || (row == before.entries@.len() && pid == entry.pid && pid != 0
                && last.process is None)
            &&& after == (LogView {
                entries: after.entries,
                matches: after.matches,
                unresolved: after.unresolved,
                logs_in_rate_window: (before.logs_in_rate_window + 1) as usize,
                ..before
            })
        }),
{
    let kept = before.named_entry(entry);
    let new = before.entries@.len() as usize;
    filter::lemma_filter_lets_through(kept, before.active_filter, before.incremental_matcher);
    assert(after.entries@.drop_last() =~= before.entries@);
    if before.matches@.contains(row) {
        let i = choose|i: int| 0 <= i < before.matches@.len() && before.matches@[i] == row;
        assert(after.matches@[i] == row);
    }
    if before.shows(kept) {
        assert(after.matches@[before.matches@.len() as int] == new);
    }
    let rows = naming::waiting(before.unresolved@, pid);
    let more = naming::waiting(after.unresolved@, pid);
    if rows.contains(row) {
        let i = choose|i: int| 0 <= i < rows.len() && rows[i] == row;
        assert(more[i] == row);
    }
    if naming::nameless(kept) && pid == kept.pid {
        assert(more[rows.len() as int] == new);
    }
}

/// After a trim nothing is selected or shown until the filter answers, and exactly the
/// entries that are left without a name wait for one.
pub proof fn lemma_trim_starts_anew(
    before: LogView,
    after: LogView,
    entries: Seq<LogEntry>,
    request: FilterRequest,
    pid: u32,
    row: usize,
)
    requires
        after.wf(),
        after.trimmed_from(before, entries, request),
        before.filter_generation < u64::MAX,
    ensures
        after.matches@.len() == 0,
        after.selected is None,
        !after.selection.rows@.contains(row),
        naming::waiting(after.unresolved@, pid).contains(row) <==> row < after.entries@.len()
            && after.entries@[row as int].pid == pid && pid != 0
            && after.entries@[row as int].process is None,
        request.entries@ == after.entries@,
        request.generation == before.filter_generation + 1,
        after.processes == before.processes,
        after.memory_limit_mib == before.memory_limit_mib,
        after.package == before.package,
        after.min_level == before.min_level,
        after.query == before.query,
        after.use_regex == before.use_regex,
        after.case_sensitive == before.case_sensitive,
        after.filter_elapsed == before.filter_elapsed,
        after.logs_in_rate_window == before.logs_in_rate_window,
        after.selection.anchor is None,
{
    after.entries.lemma_accounting();
    naming::lemma_nameless_rows_wait(after.entries@, pid, after.entries@.len() as int, row);
}

/// Taking in a process table, as long as nothing has to go for it: exactly the rows that
/// waited for a process of the table get its name, nothing else of any entry changes, and
/// they wait no longer. The filter is started anew only for this, and where a package is
/// asked for.
pub proof fn lemma_table_names_the_waiting(
    before: LogView,
    after: LogView,
    table: Map<u32, String>,
    r: Option<FilterRequest>,
    row: usize,
    pid: u32,
)
    requires
        before.wf(),
        after.named_from(before, table, r),
        after.entries@.len() == before.entries@.len(),
        row < before.entries@.len(),
    ensures
        ({
            let old_entry = before.entries@[row as int];
            let new_entry = after.entries@[row as int];
            let waited = naming::waiting(before.unresolved@, old_entry.pid).contains(row);
            &&& new_entry == (LogEntry { process: new_entry.process, ..old_entry })
            &&& waited && table.contains_key(old_entry.pid) ==> (new_entry.process matches Some(
                name,
            ) && name@ == table[old_entry.pid]@)
            &&& !waited || !table.contains_key(old_entry.pid) ==> new_entry.process
                == old_entry.process
        }),
        after.processes@.contains_key(pid) <==> table.contains_key(pid),
        table.contains_key(pid) ==> after.processes@[pid]@ == table[pid]@,
        table.contains_key(pid) && naming::waiting(before.unresolved@, pid).len() > 0
            && !text::blank(before.package@) ==> r is Some,
        r is Some ==> exists|p: u32| #[trigger]
            table.contains_key(p) && naming::waiting(before.unresolved@, p).len() > 0,
        log_store::memory_of(after.entries@, before.entries.lost()) <= before.memory_limit_mib
            * 1_048_576 ==> {
            &&& after.matches == before.matches && after.selection == before.selection
                && after.selected == before.selected
            &&& after.dropped_entries == before.dropped_entries
            &&& after.package == before.package && after.query == before.query && after.min_level
                == before.min_level
            &&& naming::waiting(after.unresolved@, pid) == (if table.contains_key(pid) {
                Seq::<usize>::empty()
            } else {
                naming::waiting(before.unresolved@, pid)
            })
            &&& text::blank(before.package@) ==> r is None && after.filter_generation
                == before.filter_generation && after.filter_pending == before.filter_pending
        },
{
    let named = naming::resolved(before.entries@, before.unresolved@, after.processes@);
    assert(after.processes@.dom().contains(pid) <==> table.dom().contains(pid));
    assert(after.processes@.dom().contains(before.entries@[row as int].pid) <==> table.dom().contains(
        before.entries@[row as int].pid,
    ));
    assert(named.skip(0) =~= named);
    if table.contains_key(pid) && naming::waiting(before.unresolved@, pid).len() > 0 {
        assert(table.dom().contains(pid));
    }
    if naming::any_named(before.unresolved@, table.dom()) {
        let p = choose|p: u32| #[trigger]
            table.dom().contains(p) && naming::waiting(before.unresolved@, p).len() > 0;
        assert(table.contains_key(p));
    }
}

/// An entry for which the budget is too small is added all the same, and then the oldest
/// go: what is left are the newest entries, in their order, in at most nine tenths of the
/// budget.
pub proof fn lemma_over_the_budget(
    before: LogView,
    after: LogView,
    entry: LogEntry,
    r: Option<FilterRequest>,
)
    requires
        after.appended_to(before, entry, r),
        log_store::memory_of(
            before.entries@.push(before.named_entry(entry)),
            before.entries.lost(),
        ) > before.memory_limit_mib * 1_048_576,
    ensures
        ({
            let grown = before.entries@.push(before.named_entry(entry));
            let gone = grown.len() - after.entries@.len();
            &&& r is Some
            &&& gone >= 0
            &&& after.entries@ == grown.skip(gone)
            &&& after.dropped_entries == before.dropped_entries + gone
            &&& after.entries.memory() * 10 <= before.memory_limit_mib * 1_048_576 * 9
            &&& after.package == before.package && after.query == before.query && after.min_level
                == before.min_level && after.processes == before.processes
        }),
{
    let grown = before.entries@.push(before.named_entry(entry));
    let counted = LogView {
        logs_in_rate_window: (before.logs_in_rate_window + 1) as usize,
        ..before
    };
    lemma_trim_leaves_nine_tenths(counted, after, grown, r->0);
}

/// While an answer of the filter is awaited no new entry is shown: the answer brings them.
pub proof fn lemma_nothing_is_shown_meanwhile(
    before: LogView,
    after: LogView,
    entry: LogEntry,
    r: Option<FilterRequest>,
)
    requires
        after.appended_to(before, entry, r),
        before.filter_pending,
        r is None,
    ensures
        after.matches@ == before.matches@,
        after.filter_pending,
        after.filter_generation == before.filter_generation,
{
}

/// Only what is shown is selected, and only what is retained is shown.
pub proof fn lemma_selected_rows_are_shown(view: LogView, row: usize)
    requires
        view.wf(),
    ensures
        view.selection.rows@.contains(row) ==> view.matches@.contains(row),
        view.selected == Some(row) ==> view.matches@.contains(row),
        view.matches@.contains(row) ==> row < view.entries@.len(),
        view.entries.memory() <= view.memory_limit_mib * 1_048_576,
        16 <= view.memory_limit_mib <= 4096,
{
    if view.selection.rows@.contains(row) {
        assert(view.matches@.to_set().contains(row));
    }
    if view.matches@.contains(row) {
        let i = choose|i: int| 0 <= i < view.matches@.len() && view.matches@[i] == row;
        assert(view.matches@[i] < view.entries@.len());
    }
}

/// Every row that waits for the name of a process is retained, belongs to that process and
/// has no name, and waits once. Processes for which nothing waits are not listed.
pub proof fn lemma_waiting_rows(view: LogView, pid: u32, i: int, j: int)
    requires
        view.wf(),
    ensures
        ({
            let rows = naming::waiting(view.unresolved@, pid);
            &&& view.unresolved@.contains_key(pid) <==> rows.len() > 0
            &&& 0 <= i < rows.len() ==> rows[i] < view.entries@.len()
                && view.entries@[rows[i] as int].pid == pid && pid != 0
                && view.entries@[rows[i] as int].process is None
            &&& 0 <= i < j < rows.len() ==> rows[i] < rows[j]
        }),
{
    let rows = naming::waiting(view.unresolved@, pid);
    assert(selection::increasing(rows));
    if 0 <= i < rows.len() {
        let row = naming::waiting(view.unresolved@, pid)[i];
        assert(naming::nameless(view.entries@[row as int]));
    }
}

} // verus!
