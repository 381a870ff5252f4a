//! The state of the viewer: the log, its capture, the saved filters and how they
//! are shown. Events from outside come in, and what is to be done outside goes out.

use std::collections::HashMap;
use std::sync::Arc;

use vstd::prelude::*;

use crate::adb::DeviceInfo;
use crate::capture::{Capture, CaptureState, Command};
use crate::config::{clamp_limit, AppConfig};
use crate::filter::{FilterRequest, FilterSpec};
use crate::logs::LogView;
use crate::model::{Level, LogBuffer, SavedFilter};
use crate::queue::{QueueBudget, QueuedLogEntry};
use crate::saved::{copy_filters, save_filter};
use crate::text::{is_empty, trim};
use crate::{adb, capture, config, log_store, logs, model, saved, text};

verus! {

/// What the reader of a log sends.
pub enum LogcatEvent {
    Started,
    Entry(QueuedLogEntry),
    Stderr(String),
    Exited { code: Option<i32>, error: Option<String> },
}

/// What comes in from outside.
#[allow(inconsistent_fields)]
pub enum BackendEvent {
    Devices(Result<Vec<DeviceInfo>, String>),
    Packages { serial: String, result: Result<Vec<String>, String> },
    Processes { serial: String, result: Result<HashMap<u32, String>, String> },
    Logcat { session_id: u64, event: LogcatEvent },
}

/// What is to be done outside: the commands in their order, and the snapshot that
/// is to be filtered.
pub struct Effects {
    pub commands: Vec<Command>,
    pub filter: Option<FilterRequest>,
}

/// The state of the viewer.
pub struct Session {
    pub logs: LogView,
    pub capture: Capture,
    pub saved_filters: Vec<SavedFilter>,
    pub show_save_filter: bool,
    pub save_filter_name: String,
    pub dark: bool,
    pub show_details: bool,
    pub follow_logs: bool,
    pub scroll_to_bottom: bool,
    pub scroll_to_selected: bool,
    pub package_popup_open: bool,
    pub config_dirty: bool,
}

/// The processes are forgotten, and nothing else has changed.
pub open spec fn forgotten(after: LogView, before: LogView) -> bool {
    &&& after.processes@ == Map::<u32, Arc<str>>::empty()
    &&& after.unresolved@ == Map::<u32, Vec<usize>>::empty()
    &&& after == (LogView {
        processes: after.processes,
        unresolved: after.unresolved,
        ..before
    })
}

/// The log after a step of the capture: without a device the processes are
/// forgotten.
pub open spec fn follows_selection(
    after: LogView,
    before: LogView,
    had: Option<Seq<char>>,
    has: Option<Seq<char>>,
) -> bool {
    if had is Some && has is None {
        forgotten(after, before)
    } else {
        after == before
    }
}

/// A reply in texts.
pub open spec fn device_reply(result: Result<Vec<DeviceInfo>, String>) -> Result<
    Seq<adb::DeviceText>,
    Seq<char>,
> {
    match result {
        Ok(devices) => Ok(adb::device_texts(devices@)),
        Err(message) => Err(message@),
    }
}

/// A reply in texts.
pub open spec fn package_reply(result: Result<Vec<String>, String>) -> Result<
    Seq<Seq<char>>,
    Seq<char>,
> {
    match result {
        Ok(packages) => Ok(text::texts(packages@)),
        Err(message) => Err(message@),
    }
}

impl Session {
    /// What holds between any two operations.
    pub open spec fn wf(self) -> bool {
        self.logs.wf()
    }

    /// The counters have room for the next operation.
    pub open spec fn counters_fit(self) -> bool {
        &&& self.logs.counters_fit()
        &&& self.capture.session_id < u64::MAX - 1
    }

    /// Whether the counters have room for the next operation.
    pub fn can_count(&self) -> (r: bool)
        requires
            self.wf(),
        ensures
            r == self.counters_fit(),
    {
        self.logs.can_count() && self.capture.session_id < u64::MAX - 1
    }

    /// Whether the settings in use are these.
    pub open spec fn has_settings(self, config: AppConfig) -> bool {
        &&& config.package == self.logs.package
        &&& config.min_level == self.logs.min_level
        &&& config.query == self.logs.query
        &&& config.use_regex == self.logs.use_regex
        &&& config.case_sensitive == self.logs.case_sensitive
        &&& config.dark == self.dark
        &&& config.show_details == self.show_details
        &&& config.saved_filters@ == self.saved_filters@
        &&& config.memory_limit_mib == self.logs.memory_limit_mib
        &&& config.buffers@ == self.capture.buffers@
    }

    /// The viewer at its start, with the given settings.
    pub fn new(config: AppConfig, adb_available: bool) -> (r: Session)
        ensures
            r.wf(),
            r.logs.in_sync(),
            r.logs.entries@.len() == 0,
            r.logs.matches@.len() == 0,
            r.logs.selected is None,
            r.logs.selection.rows@.is_empty(),
            r.logs.selection.anchor is None,
            r.logs.entries.lost() == 0,
            r.logs.unresolved@ == Map::<u32, Vec<usize>>::empty(),
            r.logs.processes@ == Map::<u32, Arc<str>>::empty(),
            r.logs.dropped_entries == 0,
            r.has_settings(
                AppConfig {
                    memory_limit_mib: config::clamped_limit(
                        config.memory_limit_mib as int,
                    ) as usize,
                    ..config
                },
            ),
            !r.logs.filter_pending,
            !r.logs.filter_dirty,
            r.logs.filter_error is None,
            r.logs.filter_elapsed is None,
            r.logs.active_filter == (FilterSpec {
                package: config.package,
                min_level: config.min_level,
                query: config.query,
                regex: config.use_regex,
                case_sensitive: config.case_sensitive,
            }),
            r.logs.filter_generation == 0,
            r.logs.logs_in_rate_window == 0,
            r.capture.model() == (capture::CaptureModel {
                adb_available,
                adb_status: seq![],
                devices: seq![],
                selected: None,
                device_query_pending: false,
                package_query_pending: false,
                process_query_pending: false,
                capturing: false,
                session_id: 0,
                phase: if adb_available {
                    capture::CapturePhase::WaitingForDevice
                } else {
                    capture::CapturePhase::NoAdb
                },
                last_error: None,
                packages: seq![],
                buffers: config.buffers@,
                draft: config.buffers@,
            }),
            !r.show_save_filter,
            r.save_filter_name@.len() == 0,
            r.follow_logs,
            !r.scroll_to_bottom,
            !r.scroll_to_selected,
            !r.package_popup_open,
            !r.config_dirty,
    {
        let mut draft: Vec<LogBuffer> = Vec::new();
        draft.extend_from_slice(config.buffers.as_slice());
        assert(draft@ =~= config.buffers@);
        let logs = LogView::new(
            config.package,
            config.min_level,
            config.query,
            config.use_regex,
            config.case_sensitive,
            clamp_limit(config.memory_limit_mib),
        );
        let capture = Capture {
            adb_available,
            adb_status: String::new(),
            devices: Vec::new(),
            selected_device: None,
            device_query_pending: false,
            package_query_pending: false,
            process_query_pending: false,
            capturing: false,
            session_id: 0,
            state: if adb_available {
                CaptureState::WaitingForDevice
            } else {
                CaptureState::NoAdb
            },
            last_error: None,
            packages: Vec::new(),
            buffers: config.buffers,
            buffer_draft: draft,
        };
        proof {
            assert(capture.adb_status@ =~= seq![]);
            assert(adb::device_texts(capture.devices@) =~= seq![]);
            assert(text::texts(capture.packages@) =~= seq![]);
        }
        Session {
            logs,
            capture,
            saved_filters: config.saved_filters,
            show_save_filter: false,
            save_filter_name: String::new(),
            dark: config.dark,
            show_details: config.show_details,
            follow_logs: true,
            scroll_to_bottom: false,
            scroll_to_selected: false,
            package_popup_open: false,
            config_dirty: false,
        }
    }

    /// The settings as they are now.
    pub fn app_config(&self) -> (r: AppConfig)
        ensures
            self.has_settings(r),
    {
        let mut buffers: Vec<LogBuffer> = Vec::new();
        buffers.extend_from_slice(self.capture.buffers.as_slice());
        assert(buffers@ =~= self.capture.buffers@);
        AppConfig {
            package: self.logs.package.clone(),
            min_level: self.logs.min_level,
            query: self.logs.query.clone(),
            use_regex: self.logs.use_regex,
            case_sensitive: self.logs.case_sensitive,
            dark: self.dark,
            show_details: self.show_details,
            saved_filters: copy_filters(&self.saved_filters),
            memory_limit_mib: self.logs.memory_limit_mib,
            buffers,
        }
    }

    // -----------------------------------------------------------------------
    // Events
    // -----------------------------------------------------------------------

    /// Whether an event can be taken in: its reservation is one of the budget's,
    /// and where it counts, what it brings can be counted and accounted for.
    pub open spec fn accepts(self, event: BackendEvent, used: usize) -> bool {
        match event {
            BackendEvent::Devices(_) => self.capture.session_id < u64::MAX,
            BackendEvent::Packages { .. } => true,
            BackendEvent::Processes { serial, result } => match result {
                Ok(table) => self.capture.model().selected == Some(serial@)
                    ==> self.logs.counters_fit() && self.logs.names_fit(table@),
                Err(_) => true,
            },
            BackendEvent::Logcat { session_id, event } => match event {
                LogcatEvent::Entry(queued) => {
                    &&& queued.permit.bytes <= used
                    &&& session_id == self.capture.session_id ==> {
                        &&& self.logs.counters_fit()
                        &&& log_store::memory_of(
                            self.logs.entries@.push(self.logs.named_entry(queued.entry)),
                            self.logs.entries.lost(),
                        ) <= usize::MAX
                    }
                },
                _ => true,
            },
        }
    }

    /// Whether an event can be taken in.
    pub fn can_accept(&self, event: &BackendEvent, budget: &QueueBudget) -> (r: bool)
        requires
            self.wf(),
        ensures
            r == self.accepts(*event, budget.used),
    {
        match event {
            BackendEvent::Devices(_) => self.capture.session_id < u64::MAX,
            BackendEvent::Packages { .. } => true,
            BackendEvent::Processes { serial, result } => match result {
                Ok(table) => !self.capture.is_selected(serial.as_str()) || (self.logs.can_count()
                    && self.logs.can_name(table)),
                Err(_) => true,
            },
            BackendEvent::Logcat { session_id, event } => match event {
                LogcatEvent::Entry(queued) => queued.permit.bytes <= budget.used && (*session_id
                    != self.capture.session_id || (self.logs.can_count() && self.logs.can_append(
                    &queued.entry,
                ))),
                _ => true,
            },
        }
    }

    /// Only the log and the capture have changed.
    pub open spec fn only_data_changed(self, before: Session) -> bool {
        self == (Session { logs: self.logs, capture: self.capture, ..before })
    }

    /// Nothing has changed, and nothing is to be done.
    pub open spec fn unmoved(self, before: Session, r: Effects) -> bool {
        &&& self.capture.model() == before.capture.model()
        &&& self.logs == before.logs
        &&& r.commands@.len() == 0
        &&& r.filter is None
    }

    /// What a list of devices comes to.
    pub open spec fn took_devices(
        self,
        before: Session,
        result: Result<Vec<DeviceInfo>, String>,
        r: Effects,
    ) -> bool {
        let old_model = before.capture.model();
        let new_model = self.capture.model();
        &&& (new_model, capture::orders(r.commands@)) == old_model.devices_listed(
            device_reply(result),
        )
        &&& follows_selection(self.logs, before.logs, old_model.selected, new_model.selected)
        &&& r.filter is None
    }

    /// What a list of packages comes to.
    pub open spec fn took_packages(
        self,
        before: Session,
        serial: Seq<char>,
        result: Result<Vec<String>, String>,
        r: Effects,
    ) -> bool {
        &&& self.capture.model() == before.capture.model().packages_listed(
            serial,
            package_reply(result),
        )
        &&& self.logs == before.logs
        &&& r.commands@.len() == 0
        &&& r.filter is None
    }

    /// What a table of processes comes to; one of another device than the chosen
    /// one is ignored.
    pub open spec fn took_processes(
        self,
        before: Session,
        serial: Seq<char>,
        result: Result<HashMap<u32, String>, String>,
        r: Effects,
    ) -> bool {
        if before.capture.model().selected != Some(serial) {
            self.unmoved(before, r)
        } else {
            &&& self.capture.model() == (capture::CaptureModel {
                process_query_pending: false,
                ..before.capture.model()
            })
            &&& r.commands@.len() == 0
            &&& match result {
                Ok(table) => self.logs.named_from(before.logs, table@, r.filter),
                Err(_) => self.logs == before.logs && r.filter is None,
            }
        }
    }

    /// What an event of the current session comes to.
    pub open spec fn took_logcat(self, before: Session, event: LogcatEvent, r: Effects) -> bool {
        let old_model = before.capture.model();
        let new_model = self.capture.model();
        match event {
            LogcatEvent::Started => {
                &&& new_model == (capture::CaptureModel {
                    phase: capture::CapturePhase::Running,
                    ..old_model
                })
                &&& self.logs == before.logs
                &&& r.commands@.len() == 0
                &&& r.filter is None
            },
            LogcatEvent::Entry(queued) => {
                &&& new_model == old_model
                &&& self.logs.appended_to(before.logs, queued.entry, r.filter)
                &&& r.commands@.len() == 0
            },
            LogcatEvent::Stderr(message) => {
                &&& new_model == (capture::CaptureModel {
                    last_error: Some(message@),
                    ..old_model
                })
                &&& self.logs == before.logs
                &&& r.commands@.len() == 0
                &&& r.filter is None
            },
            LogcatEvent::Exited { code, error } => {
                &&& (new_model, capture::orders(r.commands@)) == old_model.ended(
                    code,
                    capture::optional(error),
                )
                &&& self.logs == before.logs
                &&& r.filter is None
            },
        }
    }

    /// What an event comes to. Answers for another device than the chosen one and
    /// whatever belongs to an old session change nothing.
    pub open spec fn stepped(self, before: Session, event: BackendEvent, r: Effects) -> bool {
        &&& self.only_data_changed(before)
        &&& match event {
            BackendEvent::Devices(result) => self.took_devices(before, result, r),
            BackendEvent::Packages { serial, result } => self.took_packages(
                before,
                serial@,
                result,
                r,
            ),
            BackendEvent::Processes { serial, result } => self.took_processes(
                before,
                serial@,
                result,
                r,
            ),
            BackendEvent::Logcat { session_id, event } => if session_id
                != before.capture.session_id {
                self.unmoved(before, r)
            } else {
                self.took_logcat(before, event, r)
            },
        }
    }

    /// The bytes of the queue that an event gives back.
    pub open spec fn released(event: BackendEvent) -> int {
        match event {
            BackendEvent::Logcat { session_id: _, event: LogcatEvent::Entry(queued) } =>
                queued.permit.bytes as int,
            _ => 0,
        }
    }

    /// Takes in a list of devices.
    fn take_devices(&mut self, result: Result<Vec<DeviceInfo>, String>) -> (r: Effects)
        requires
            old(self).wf(),
            old(self).capture.session_id < u64::MAX,
        ensures
            final(self).wf(),
            old(self).logs.in_sync() ==> final(self).logs.in_sync(),
            final(self).only_data_changed(*old(self)),
            final(self).took_devices(*old(self), result, r),
    {
        let had = self.capture.selected_device.is_some();
        let commands = self.capture.devices_listed(result);
        if had && self.capture.selected_device.is_none() {
            self.logs.forget_processes();
        }
        Effects { commands, filter: None }
    }

    /// Takes in a table of processes.
    fn take_processes(&mut self, serial: &str, result: Result<HashMap<u32, String>, String>) -> (r:
        Effects)
        requires
            old(self).wf(),
            old(self).capture.model().selected == Some(serial@) ==> (result matches Ok(table)
                ==> old(self).logs.counters_fit() && old(self).logs.names_fit(table@)),
        ensures
            final(self).wf(),
            old(self).logs.in_sync() ==> final(self).logs.in_sync(),
            final(self).only_data_changed(*old(self)),
            final(self).took_processes(*old(self), serial@, result, r),
    {
        if !self.capture.processes_answered(serial) {
            return Effects { commands: Vec::new(), filter: None };
        }
        let filter = match result {
            Ok(table) => self.logs.update_processes(table),
            Err(_) => None,
        };
        Effects { commands: Vec::new(), filter }
    }

    /// Takes in an event of the current session.
    fn take_logcat(&mut self, event: LogcatEvent, budget: &mut QueueBudget) -> (r: Effects)
        requires
            old(self).wf(),
            old(budget).wf(),
            event matches LogcatEvent::Entry(queued) ==> queued.permit.bytes <= old(budget).used
                && old(self).logs.counters_fit() && log_store::memory_of(
                old(self).logs.entries@.push(old(self).logs.named_entry(queued.entry)),
                old(self).logs.entries.lost(),
            ) <= usize::MAX,
        ensures
            final(self).wf(),
            old(self).logs.in_sync() ==> final(self).logs.in_sync(),
            final(self).only_data_changed(*old(self)),
            final(self).took_logcat(*old(self), event, r),
            final(budget).wf(),
            final(budget).used == old(budget).used - (match event {
                LogcatEvent::Entry(queued) => queued.permit.bytes as int,
                _ => 0,
            }),
    {
        match event {
            LogcatEvent::Started => {
                self.capture.state = CaptureState::Running;
                Effects { commands: Vec::new(), filter: None }
            },
            LogcatEvent::Entry(queued) => {
                let entry = queued.into_inner(budget);
                let filter = self.logs.append_entry(entry);
                Effects { commands: Vec::new(), filter }
            },
            LogcatEvent::Stderr(message) => {
                self.capture.last_error = Some(message);
                Effects { commands: Vec::new(), filter: None }
            },
            LogcatEvent::Exited { code, error } => {
                let commands = self.capture.logcat_ended(code, error);
                Effects { commands, filter: None }
            },
        }
    }

    /// Takes in an event.
    pub fn handle_event(&mut self, event: BackendEvent, budget: &mut QueueBudget) -> (r: Effects)
        requires
            old(self).wf(),
            old(budget).wf(),
            old(self).accepts(event, old(budget).used),
        ensures
            final(self).wf(),
            old(self).logs.in_sync() ==> final(self).logs.in_sync(),
            final(self).stepped(*old(self), event, r),
            final(budget).wf(),
            final(budget).used == old(budget).used - Session::released(event),
    {
        match event {
            BackendEvent::Devices(result) => self.take_devices(result),
            BackendEvent::Packages { serial, result } => {
                self.capture.packages_listed(serial.as_str(), result);
                Effects { commands: Vec::new(), filter: None }
            },
            BackendEvent::Processes { serial, result } => self.take_processes(
                serial.as_str(),
                result,
            ),
            BackendEvent::Logcat { session_id, event } => {
                if session_id == self.capture.session_id {
                    return self.take_logcat(event, budget);
                }
                if let LogcatEvent::Entry(queued) = event {
                    let _ = queued.into_inner(budget);
                }
                Effects { commands: Vec::new(), filter: None }
            },
        }
    }
}

/// Whatever still comes in from an old session changes nothing, and nothing is to be
/// done about it. It can always be taken in, however full the log and its counters are.
pub proof fn lemma_old_sessions_are_ignored(
    before: Session,
    after: Session,
    session_id: u64,
    event: LogcatEvent,
    r: Effects,
)
    requires
        after.stepped(before, BackendEvent::Logcat { session_id, event }, r),
        session_id != before.capture.session_id,
    ensures
        forall|used: usize|
            (event matches LogcatEvent::Entry(queued) ==> queued.permit.bytes <= used)
                ==> #[trigger] before.accepts(BackendEvent::Logcat { session_id, event }, used),
        after == (Session { capture: after.capture, ..before }),
        after.logs == before.logs,
        after.capture.model() == before.capture.model(),
        r.commands@.len() == 0,
        r.filter is None,
{
}

// ---------------------------------------------------------------------------
// What the user does
// ---------------------------------------------------------------------------

/// The log is emptied for another device: with the entries its processes are
/// forgotten, the settings stay.
pub open spec fn emptied(after: LogView, before: LogView) -> bool {
    &&& after.entries@.len() == 0
    &&& after.entries.lost() == 0
    &&& after.matches@.len() == 0
    &&& after.selection.rows@.is_empty()
    &&& after.selection.anchor is None
    &&& after.processes@ == Map::<u32, Arc<str>>::empty()
    &&& after.unresolved@ == Map::<u32, Vec<usize>>::empty()
    &&& after == (LogView {
        entries: after.entries,
        matches: after.matches,
        selected: None,
        selection: after.selection,
        unresolved: after.unresolved,
        processes: after.processes,
        dropped_entries: 0,
        filter_generation: (before.filter_generation + 1) as u64,
        filter_pending: false,
        filter_elapsed: None,
        ..before
    })
}

impl Session {
    /// Chooses a device; its log begins empty.
    pub fn switch_device(&mut self, serial: String) -> (r: Vec<Command>)
        requires
            old(self).wf(),
            old(self).counters_fit(),
        ensures
            final(self).wf(),
            old(self).logs.in_sync() ==> final(self).logs.in_sync(),
            final(self).only_data_changed(*old(self)),
            (final(self).capture.model(), capture::orders(r@))
                == old(self).capture.model().switched(serial@),
            if old(self).capture.model().selected == Some(serial@) && old(self).capture.capturing {
                final(self).logs == old(self).logs
            } else {
                emptied(final(self).logs, old(self).logs)
            },
    {
        let unchanged = self.capture.is_selected(serial.as_str()) && self.capture.capturing;
        let commands = self.capture.switch_device(serial);
        if !unchanged {
            self.logs.forget_processes();
            self.logs.clear_logs();
        }
        commands
    }

    /// Pauses the capture; the log stays.
    pub fn pause_capture(&mut self) -> (r: Vec<Command>)
        requires
            old(self).wf(),
            old(self).counters_fit(),
        ensures
            final(self).wf(),
            old(self).logs.in_sync() ==> final(self).logs.in_sync(),
            final(self).only_data_changed(*old(self)),
            (final(self).capture.model(), capture::orders(r@))
                == old(self).capture.model().paused(),
            final(self).logs == (LogView { logs_in_rate_window: 0, ..old(self).logs }),
    {
        let commands = self.capture.pause_capture();
        self.logs.logs_in_rate_window = 0;
        commands
    }

    /// Closes the capture; the log stays, its processes are forgotten.
    pub fn close_capture(&mut self) -> (r: Vec<Command>)
        requires
            old(self).wf(),
            old(self).counters_fit(),
        ensures
            final(self).wf(),
            old(self).logs.in_sync() ==> final(self).logs.in_sync(),
            final(self).only_data_changed(*old(self)),
            (final(self).capture.model(), capture::orders(r@))
                == old(self).capture.model().closed_capture(),
            forgotten(
                final(self).logs,
                LogView { logs_in_rate_window: 0, ..old(self).logs },
            ),
    {
        let commands = self.capture.close_capture();
        self.logs.forget_processes();
        self.logs.logs_in_rate_window = 0;
        commands
    }

    /// Goes on after the bridge was looked for.
    pub fn refresh_devices(&mut self, found: bool) -> (r: Vec<Command>)
        requires
            old(self).wf(),
            old(self).counters_fit(),
        ensures
            final(self).wf(),
            old(self).logs.in_sync() ==> final(self).logs.in_sync(),
            final(self).only_data_changed(*old(self)),
            (final(self).capture.model(), capture::orders(r@))
                == old(self).capture.model().refreshed(found),
            follows_selection(
                final(self).logs,
                old(self).logs,
                old(self).capture.model().selected,
                final(self).capture.model().selected,
            ),
    {
        let had = self.capture.selected_device.is_some();
        let commands = self.capture.refresh_devices(found);
        if had && self.capture.selected_device.is_none() {
            self.logs.forget_processes();
        }
        commands
    }

    /// Lets the chosen buffers take effect.
    pub fn apply_buffers(&mut self) -> (r: Vec<Command>)
        requires
            old(self).wf(),
            old(self).counters_fit(),
        ensures
            final(self).wf(),
            (final(self).capture.model(), capture::orders(r@))
                == old(self).capture.model().buffers_applied(),
            *final(self) == (Session {
                capture: final(self).capture,
                config_dirty: old(self).config_dirty || old(self).capture.buffers@
                    != model::normalized(old(self).capture.buffer_draft@),
                ..*old(self)
            }),
    {
        let (commands, changed) = self.capture.apply_buffers();
        if changed {
            self.config_dirty = true;
        }
        commands
    }

    /// Changes the memory budget.
    pub fn set_memory_limit(&mut self, limit_mib: usize) -> (r: Option<FilterRequest>)
        requires
            old(self).wf(),
            old(self).counters_fit(),
        ensures
            final(self).wf(),
            old(self).logs.in_sync() ==> final(self).logs.in_sync(),
            final(self).logs.memory_limit_mib == config::clamped_limit(limit_mib as int),
            ({
                let limit = config::clamped_limit(limit_mib as int) as usize;
                let changed = LogView { memory_limit_mib: limit, ..old(self).logs };
                if old(self).logs.entries.memory() <= limit * logs::MIB {
                    r is None && final(self).logs == changed
                } else {
                    r matches Some(request) && final(self).logs.trimmed_from(
                        changed,
                        old(self).logs.entries@,
                        request,
                    )
                }
            }),
            *final(self) == (Session {
                logs: final(self).logs,
                config_dirty: true,
                ..*old(self)
            }),
    {
        let filter = self.logs.set_memory_limit(clamp_limit(limit_mib));
        self.config_dirty = true;
        filter
    }

    /// Changes the package that is asked for.
    pub fn edit_package(&mut self, package: String)
        requires
            old(self).wf(),
        ensures
            final(self).wf(),
            final(self).logs.in_sync(),
            *final(self) == (Session {
                logs: LogView { package, filter_dirty: true, ..old(self).logs },
                config_dirty: true,
                ..*old(self)
            }),
    {
        self.logs.set_package(package);
        self.config_dirty = true;
    }

    /// Changes the query.
    pub fn edit_query(&mut self, query: String)
        requires
            old(self).wf(),
        ensures
            final(self).wf(),
            final(self).logs.in_sync(),
            *final(self) == (Session {
                logs: LogView { query, filter_dirty: true, ..old(self).logs },
                config_dirty: true,
                ..*old(self)
            }),
    {
        self.logs.set_query(query);
        self.config_dirty = true;
    }

    /// Changes how the query is read.
    pub fn edit_query_mode(&mut self, use_regex: bool, case_sensitive: bool)
        requires
            old(self).wf(),
        ensures
            final(self).wf(),
            final(self).logs.in_sync(),
            *final(self) == (Session {
                logs: LogView { use_regex, case_sensitive, filter_dirty: true, ..old(self).logs },
                config_dirty: true,
                ..*old(self)
            }),
    {
        self.logs.set_query_mode(use_regex, case_sensitive);
        self.config_dirty = true;
    }

    /// Changes the minimum level.
    pub fn edit_min_level(&mut self, min_level: Level)
        requires
            old(self).wf(),
        ensures
            final(self).wf(),
            final(self).logs.in_sync(),
            *final(self) == (Session {
                logs: LogView { min_level, filter_dirty: true, ..old(self).logs },
                config_dirty: true,
                ..*old(self)
            }),
    {
        self.logs.set_min_level(min_level);
        self.config_dirty = true;
    }

    /// Takes over the settings of a saved filter.
    pub fn apply_saved_filter(&mut self, saved: SavedFilter) -> (r: FilterRequest)
        requires
            old(self).wf(),
            old(self).counters_fit(),
        ensures
            final(self).wf(),
            final(self).logs.in_sync(),
            final(self).logs.scheduled((old(self).logs.filter_generation + 1) as u64, r),
            final(self).logs == (LogView {
                package: saved.package,
                min_level: saved.min_level,
                query: saved.query,
                use_regex: saved.regex,
                case_sensitive: saved.case_sensitive,
                filter_generation: final(self).logs.filter_generation,
                filter_pending: true,
                filter_dirty: false,
                filter_error: final(self).logs.filter_error,
                active_filter: final(self).logs.active_filter,
                incremental_matcher: final(self).logs.incremental_matcher,
                ..old(self).logs
            }),
            *final(self) == (Session {
                logs: final(self).logs,
                config_dirty: true,
                ..*old(self)
            }),
    {
        let request = self.logs.apply_saved_filter(saved);
        self.config_dirty = true;
        request
    }

    /// The saved filter that the current settings make under the name that was
    /// typed.
    pub open spec fn named_filter(self, x: SavedFilter) -> bool {
        &&& x.name@ == text::trimmed(self.save_filter_name@)
        &&& x.package@ == text::trimmed(self.logs.package@)
        &&& x.min_level == self.logs.min_level
        &&& x.query == self.logs.query
        &&& x.regex == self.logs.use_regex
        &&& x.case_sensitive == self.logs.case_sensitive
    }

    /// Saves the current settings under the name that was typed; without a name
    /// nothing happens.
    pub fn save_current_filter(&mut self)
        ensures
            text::blank(old(self).save_filter_name@) ==> *final(self) == *old(self),
            !text::blank(old(self).save_filter_name@) ==> {
                &&& exists|x: SavedFilter| #[trigger]
                    old(self).named_filter(x) && final(self).saved_filters@ == saved::in_order(
                        saved::replaced(old(self).saved_filters@, x),
                    )
                &&& final(self).save_filter_name@.len() == 0
                &&& *final(self) == (Session {
                    saved_filters: final(self).saved_filters,
                    show_save_filter: false,
                    save_filter_name: final(self).save_filter_name,
                    config_dirty: true,
                    ..*old(self)
                })
            },
    {
        let name = trim(self.save_filter_name.as_str());
        proof {
            text::lemma_trimmed(self.save_filter_name@);
        }
        if is_empty(name) {
            return;
        }
        let x = SavedFilter {
            name: name.to_owned(),
            package: trim(self.logs.package.as_str()).to_owned(),
            min_level: self.logs.min_level,
            query: self.logs.query.clone(),
            regex: self.logs.use_regex,
            case_sensitive: self.logs.case_sensitive,
        };
        let ghost saved = x;
        assert(old(self).named_filter(saved));
        save_filter(&mut self.saved_filters, x);
        self.show_save_filter = false;
        self.save_filter_name = String::new();
        self.config_dirty = true;
    }

    /// Removes a saved filter.
    pub fn delete_saved_filter(&mut self, index: usize)
        requires
            index < old(self).saved_filters@.len(),
        ensures
            final(self).saved_filters@ == old(self).saved_filters@.remove(index as int),
            *final(self) == (Session {
                saved_filters: final(self).saved_filters,
                config_dirty: true,
                ..*old(self)
            }),
    {
        self.saved_filters.remove(index);
        self.config_dirty = true;
    }

    /// Ends a frame of the dialog for saving a filter.
    pub fn close_save_dialog(&mut self, open: bool, cancel: bool, save: bool)
        ensures
            ({
                if !save || text::blank(old(self).save_filter_name@) {
                    *final(self) == (Session { show_save_filter: open && !cancel, ..*old(self) })
                } else {
                    &&& exists|x: SavedFilter| #[trigger]
                        old(self).named_filter(x) && final(self).saved_filters@ == saved::in_order(
                            saved::replaced(old(self).saved_filters@, x),
                        )
                    &&& final(self).save_filter_name@.len() == 0
                    &&& *final(self) == (Session {
                        saved_filters: final(self).saved_filters,
                        show_save_filter: false,
                        save_filter_name: final(self).save_filter_name,
                        config_dirty: true,
                        ..*old(self)
                    })
                }
            }),
    {
        self.show_save_filter = open && !cancel;
        if save {
            let ghost shown = *self;
            self.save_current_filter();
            proof {
                if !text::blank(shown.save_filter_name@) {
                    let x = choose|x: SavedFilter| #[trigger]
                        shown.named_filter(x) && self.saved_filters@ == saved::in_order(
                            saved::replaced(shown.saved_filters@, x),
                        );
                    assert(old(self).named_filter(x));
                }
            }
        }
    }
}

/// The settings survive a restart: a viewer that begins with the settings of
/// another has the same.
pub proof fn lemma_settings_survive_a_restart(before: Session, config: AppConfig, after: Session)
    requires
        before.wf(),
        before.has_settings(config),
        after.has_settings(
            AppConfig {
                memory_limit_mib: config::clamped_limit(config.memory_limit_mib as int) as usize,
                ..config
            },
        ),
    ensures
        after.has_settings(config),
        after.logs.package == before.logs.package,
        after.logs.min_level == before.logs.min_level,
        after.logs.query == before.logs.query,
        after.logs.use_regex == before.logs.use_regex,
        after.logs.case_sensitive == before.logs.case_sensitive,
        after.logs.memory_limit_mib == before.logs.memory_limit_mib,
        after.saved_filters@ == before.saved_filters@,
        after.capture.buffers@ == before.capture.buffers@,
        after.dark == before.dark,
        after.show_details == before.show_details,
        config.package == before.logs.package,
        config.min_level == before.logs.min_level,
        config.query == before.logs.query,
        config.use_regex == before.logs.use_regex,
        config.case_sensitive == before.logs.case_sensitive,
        config.dark == before.dark,
        config.show_details == before.show_details,
        config.saved_filters@ == before.saved_filters@,
        config.memory_limit_mib == before.logs.memory_limit_mib,
        config.buffers@ == before.capture.buffers@,
{
}

/// Applying a filter that was saved brings back the filter as it was when it was
/// saved.
pub proof fn lemma_saved_filter_comes_back(
    before: Session,
    x: SavedFilter,
    after: LogView,
    request: FilterRequest,
)
    requires
        before.named_filter(x),
        after.package == x.package,
        after.min_level == x.min_level,
        after.query == x.query,
        after.use_regex == x.regex,
        after.case_sensitive == x.case_sensitive,
        after.scheduled(after.filter_generation, request),
    ensures
        request.spec.package@ == text::trimmed(before.logs.package@),
        request.spec.min_level == before.logs.min_level,
        request.spec.query == before.logs.query,
        request.spec.regex == before.logs.use_regex,
        request.spec.case_sensitive == before.logs.case_sensitive,
        x.name@ == text::trimmed(before.save_filter_name@),
{
    text::lemma_trim_idempotent(before.logs.package@);
}

/// What an event of the current session changes. The start is shown, what the bridge
/// prints is remembered, an entry is added to the log, and the end stops the reading;
/// each leaves the rest alone.
pub proof fn lemma_events_of_the_session(
    before: Session,
    after: Session,
    event: LogcatEvent,
    r: Effects,
)
    requires
        after.stepped(
            before,
            BackendEvent::Logcat { session_id: before.capture.session_id, event },
            r,
        ),
    ensures
        after.capture.model().selected == before.capture.model().selected,
        after.capture.model().session_id == before.capture.model().session_id,
        after.saved_filters == before.saved_filters,
        after.follow_logs == before.follow_logs,
        event is Started ==> after.capture.model().phase == capture::CapturePhase::Running
            && after.logs == before.logs && r.commands@.len() == 0,
        event matches LogcatEvent::Stderr(message) ==> after.capture.model().last_error == Some(
            message@,
        ) && after.capture.model().phase == before.capture.model().phase && after.logs
            == before.logs && r.commands@.len() == 0,
        event matches LogcatEvent::Entry(queued) ==> after.logs.appended_to(
            before.logs,
            queued.entry,
            r.filter,
        ) && after.capture.model() == before.capture.model() && r.commands@.len() == 0,
        event is Exited ==> !after.capture.model().capturing && after.capture.model().phase is Error
            && after.logs == before.logs && capture::orders(r.commands@) == capture::stop_order(
            before.capture.model().capturing,
        ),
{
}

/// Answers about another device than the chosen one change nothing, and nothing is to be
/// done about them.
pub proof fn lemma_other_devices_are_ignored(
    before: Session,
    after: Session,
    serial: String,
    packages: Result<Vec<String>, String>,
    processes: Result<HashMap<u32, String>, String>,
    r: Effects,
)
    requires
        before.capture.model().selected != Some(serial@),
        after.stepped(before, BackendEvent::Packages { serial, result: packages }, r)
            || after.stepped(before, BackendEvent::Processes { serial, result: processes }, r),
    ensures
        after.logs == before.logs,
        after.capture.model() == before.capture.model(),
        r.commands@.len() == 0,
        r.filter is None,
        after == (Session { capture: after.capture, ..before }),
{
}

/// Where a list of devices takes the chosen one away, its processes are forgotten, and
/// the entries, the filter and what is selected stay.
pub proof fn lemma_lost_device_keeps_the_log(
    before: Session,
    after: Session,
    result: Result<Vec<DeviceInfo>, String>,
    r: Effects,
    pid: u32,
)
    requires
        after.stepped(before, BackendEvent::Devices(result), r),
    ensures
        after.logs.entries == before.logs.entries,
        after.logs.matches == before.logs.matches,
        after.logs.selection == before.logs.selection,
        after.logs.query == before.logs.query,
        after.logs.package == before.logs.package,
        r.filter is None,
        before.capture.model().selected is Some && after.capture.model().selected is None
            ==> !after.logs.processes@.contains_key(pid) && !after.logs.unresolved@.contains_key(
            pid,
        ),
        after.capture.model().selected is Some ==> after.logs == before.logs,
        before.capture.model().selected is None ==> after.logs == before.logs,
{
}

/// Choosing another device empties the log and forgets its processes; the settings of the
/// filter and the memory budget stay, and answers to older requests no longer count.
pub proof fn lemma_emptied_log(before: LogView, after: LogView, pid: u32, row: usize)
    requires
        emptied(after, before),
        before.filter_generation < u64::MAX,
    ensures
        after.entries@.len() == 0,
        after.matches@.len() == 0,
        after.selected is None,
        !after.selection.rows@.contains(row),
        after.dropped_entries == 0,
        !after.processes@.contains_key(pid),
        !after.unresolved@.contains_key(pid),
        after.package == before.package,
        after.min_level == before.min_level,
        after.query == before.query,
        after.use_regex == before.use_regex,
        after.case_sensitive == before.case_sensitive,
        after.memory_limit_mib == before.memory_limit_mib,
        after.filter_generation > before.filter_generation,
        !after.filter_pending,
{
}

/// What can be taken in: packages, failures, and whatever the reader says besides entries
/// always; a list of devices as long as sessions can be numbered; and an entry of the
/// current session, or the processes of the chosen device, as long as the log can count
/// and account for them.
pub proof fn lemma_what_can_be_taken_in(
    session: Session,
    serial: String,
    packages: Result<Vec<String>, String>,
    devices: Result<Vec<DeviceInfo>, String>,
    table: HashMap<u32, String>,
    message: String,
    id: u64,
    code: Option<i32>,
    error: Option<String>,
    queued: QueuedLogEntry,
    used: usize,
)
    ensures
        session.accepts(BackendEvent::Packages { serial, result: packages }, used),
        session.accepts(BackendEvent::Processes { serial, result: Err(message) }, used),
        session.accepts(
            BackendEvent::Logcat { session_id: id, event: LogcatEvent::Started },
            used,
        ),
        session.accepts(
            BackendEvent::Logcat { session_id: id, event: LogcatEvent::Stderr(message) },
            used,
        ),
        session.accepts(
            BackendEvent::Logcat { session_id: id, event: LogcatEvent::Exited { code, error } },
            used,
        ),
        session.capture.session_id < u64::MAX ==> session.accepts(
            BackendEvent::Devices(devices),
            used,
        ),
        session.logs.filter_generation < u64::MAX - 1 && session.logs.logs_in_rate_window
            < usize::MAX && session.logs.dropped_entries + session.logs.entries@.len() < usize::MAX
            && session.logs.names_fit(table@) ==> session.accepts(
            BackendEvent::Processes { serial, result: Ok(table) },
            used,
        ),
        session.logs.filter_generation < u64::MAX - 1 && session.logs.logs_in_rate_window
            < usize::MAX && session.logs.dropped_entries + session.logs.entries@.len() < usize::MAX
            && queued.permit.bytes <= used && log_store::memory_of(
            session.logs.entries@.push(session.logs.named_entry(queued.entry)),
            session.logs.entries.lost(),
        ) <= usize::MAX ==> session.accepts(
            BackendEvent::Logcat { session_id: id, event: LogcatEvent::Entry(queued) },
            used,
        ),
{
}

/// Every entry gives back what it reserved in the queue, of whatever session it is, and
/// nothing else gives anything back.
pub proof fn lemma_queue_gets_its_bytes_back(
    id: u64,
    queued: QueuedLogEntry,
    event: BackendEvent,
)
    ensures
        Session::released(
            BackendEvent::Logcat { session_id: id, event: LogcatEvent::Entry(queued) },
        ) == queued.permit.bytes,
        !(event matches BackendEvent::Logcat { session_id: _, event: LogcatEvent::Entry(_) })
            ==> Session::released(event) == 0,
{
}

/// Answers about the chosen device. Its packages do not touch the log. Its processes name
/// the entries that wait for them, and where they could not be listed nothing happens;
/// either way they can be asked for again.
pub proof fn lemma_answers_about_the_device(
    before: Session,
    after: Session,
    serial: String,
    packages: Result<Vec<String>, String>,
    processes: Result<HashMap<u32, String>, String>,
    r: Effects,
)
    requires
        before.capture.model().selected == Some(serial@),
    ensures
        after.stepped(before, BackendEvent::Packages { serial, result: packages }, r) ==> {
            &&& after.logs == before.logs
            &&& !after.capture.model().package_query_pending
            &&& packages matches Ok(names) ==> after.capture.model().packages == text::texts(names@)
            &&& packages matches Err(message) ==> after.capture.model().adb_status == message@
                && after.capture.model().packages == before.capture.model().packages
            &&& r.commands@.len() == 0 && r.filter is None
        },
        after.stepped(before, BackendEvent::Processes { serial, result: processes }, r) ==> {
            &&& !after.capture.model().process_query_pending
            &&& after.capture.model().packages == before.capture.model().packages
            &&& after.capture.model().phase == before.capture.model().phase
            &&& processes matches Ok(table) ==> after.logs.named_from(
                before.logs,
                table@,
                r.filter,
            )
            &&& processes is Err ==> after.logs == before.logs && r.filter is None
            &&& r.commands@.len() == 0
        },
{
}

} // verus!
