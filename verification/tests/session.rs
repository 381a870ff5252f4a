use std::collections::{HashMap, VecDeque};
use std::sync::Arc;
use std::time::{Duration, Instant};

use ciallogcat::adb::DeviceInfo;
use ciallogcat::capture::{CaptureState, Command};
use ciallogcat::config::AppConfig;
use ciallogcat::controls::{
    drain_step, DrainStep, FilterStatus, FocusChange, ScrollTarget, Shortcut,
    BACKEND_EVENTS_PER_FRAME, BACKEND_QUEUE_CAPACITY,
};
use ciallogcat::filter::{answer, evaluate, FilterRequest};
use ciallogcat::model::{Level, LogBuffer, LogEntry, SavedFilter};
use ciallogcat::queue::{QueueBudget, QueuedLogEntry};
use ciallogcat::selection::NavigationKey;
use ciallogcat::session::{BackendEvent, LogcatEvent, Session};

const MIB: usize = 1024 * 1024;

fn sample(index: usize, message: &str) -> LogEntry {
    let mut entry = LogEntry::new(
        "09-06 12:34:56.789",
        1234,
        1235,
        "NetworkClient",
        Level::ALL[index % 6],
        format!("{index}: {message}"),
    );
    entry.process = Some(Arc::from("com.example.app:worker"));
    entry
}

fn session() -> Session {
    Session::new(AppConfig::default(), false)
}

fn device(serial: &str, state: &str) -> DeviceInfo {
    DeviceInfo {
        serial: serial.to_owned(),
        state: state.to_owned(),
        model: None,
        transport: "USB",
    }
}

fn append(session: &mut Session, entry: LogEntry) -> Option<FilterRequest> {
    assert!(session.can_count());
    assert!(session.logs.can_append(&entry));
    session.logs.append_entry(entry)
}

fn answer_filter(session: &mut Session, request: &FilterRequest) {
    let result = answer(request, evaluate(request), Duration::from_millis(7));
    assert!(result.fits(request.entries.len()));
    session.logs.absorb_result(result);
}

fn logcat(session_id: u64, event: LogcatEvent) -> BackendEvent {
    BackendEvent::Logcat { session_id, event }
}

fn queued(entry: LogEntry, budget: &mut QueueBudget) -> LogcatEvent {
    LogcatEvent::Entry(QueuedLogEntry::queue(entry, budget).unwrap())
}

fn send(session: &mut Session, event: BackendEvent) -> (Vec<Command>, Option<FilterRequest>) {
    let mut budget = QueueBudget::default();
    let effects = session.handle_event(event, &mut budget);
    (effects.commands, effects.filter)
}

fn press(session: &mut Session, shortcut: Shortcut, focused: bool) -> Option<FocusChange> {
    session
        .allows(shortcut, focused, false)
        .then(|| session.apply_shortcut(shortcut, focused))
}

fn key(key: NavigationKey) -> Shortcut {
    Shortcut::Navigate { key, extend: false }
}

#[test]
fn backend_drain_yields_and_preserves_queued_logs() {
    let mut session = session();
    let mut budget = QueueBudget::default();
    let mut queue = VecDeque::new();
    for index in 0..BACKEND_QUEUE_CAPACITY {
        queue.push_back(logcat(
            session.capture.session_id,
            queued(sample(index, "ready"), &mut budget),
        ));
    }
    let mut poll = |session: &mut Session, budget: &mut QueueBudget| {
        let started = Instant::now();
        let mut processed = 0;
        while let DrainStep::Take { .. } =
            drain_step(processed, started.elapsed().as_millis() as u64)
        {
            let Some(event) = queue.pop_front() else {
                break;
            };
            assert!(session.can_accept(&event, budget));
            session.handle_event(event, budget);
            processed += 1;
        }
    };
    poll(&mut session, &mut budget);
    assert!(session.logs.entries.len() <= BACKEND_EVENTS_PER_FRAME);
    assert!(session.logs.entries.len() < BACKEND_QUEUE_CAPACITY);
    while session.logs.entries.len() < BACKEND_QUEUE_CAPACITY {
        poll(&mut session, &mut budget);
    }
    assert_eq!(session.logs.matches.len(), BACKEND_QUEUE_CAPACITY);
    assert!(
        session.logs.entries[BACKEND_QUEUE_CAPACITY - 1]
            .message
            .starts_with("4095:")
    );
    assert_eq!(budget.used, 0);
}

#[test]
fn a_frame_stops_at_its_limits_and_asks_for_another() {
    assert_eq!(drain_step(0, 0), DrainStep::Take { repaint: false });
    assert_eq!(drain_step(2047, 3), DrainStep::Take { repaint: true });
    assert_eq!(drain_step(2048, 0), DrainStep::Stop { repaint: false });
    assert_eq!(drain_step(5, 4), DrainStep::Stop { repaint: true });
}

#[test]
fn keyboard_find_preserves_query_and_navigation_respects_input_focus() {
    let mut session = session();
    for index in 0..3 {
        append(&mut session, sample(index, "message"));
    }
    session.edit_query("message".to_owned());
    press(&mut session, key(NavigationKey::ArrowDown), false);
    assert_eq!(session.logs.selected, Some(0));
    assert_eq!(
        press(&mut session, Shortcut::Find, false),
        Some(FocusChange::Query)
    );
    assert_eq!(
        press(&mut session, key(NavigationKey::ArrowDown), true),
        None
    );
    assert_eq!(session.logs.selected, Some(0));
    assert_eq!(press(&mut session, Shortcut::Slash, true), None);
    assert_eq!(
        press(&mut session, Shortcut::Escape, true),
        Some(FocusChange::Leave)
    );
    assert_eq!(session.logs.query, "message");
    assert_eq!(session.logs.selected, Some(0));
    press(&mut session, key(NavigationKey::ArrowDown), false);
    assert_eq!(session.logs.selected, Some(1));
    assert!(session.allows_copy(false, false));
    assert_eq!(
        session.copy_request(true, false),
        Some(session.logs.entries[1].copy_text())
    );
    assert_eq!(session.copy_request(true, true), None);
    assert_eq!(session.copy_request(false, false), None);
}

#[test]
fn filtering_during_capture_and_trim_keeps_valid_indices() {
    let mut session = session();
    for index in 0..200_000 {
        append(&mut session, sample(index, "message"));
    }
    session.edit_query("message".to_owned());
    let stale = session.logs.schedule_filter();
    let mut request = session.set_memory_limit(16).unwrap();
    for index in 0..10 {
        if let Some(next) = append(&mut session, sample(index, "message")) {
            request = next;
        }
    }
    answer_filter(&mut session, &stale);
    assert!(session.logs.filter_pending);
    answer_filter(&mut session, &request);
    assert!(!session.logs.filter_pending);
    assert!(session.logs.dropped_entries > 0);
    assert!(session.logs.entries.memory_bytes() <= 16 * MIB);
    assert_eq!(session.logs.matches.len(), session.logs.entries.len());
    assert!(
        session
            .logs
            .matches
            .iter()
            .copied()
            .eq(0..session.logs.entries.len())
    );
    let old = session.logs.schedule_filter();
    session.logs.clear_logs();
    append(&mut session, sample(0, "message"));
    answer_filter(&mut session, &old);
    assert_eq!(session.logs.matches, [0]);
    assert_eq!(session.logs.entries.len(), 1);
}

#[test]
fn pause_and_close_ignore_old_session_events_and_keep_logs() {
    let mut session = session();
    session.capture.selected_device = Some("fixture".to_owned());
    append(&mut session, sample(0, "retained"));
    let old_session = session.capture.session_id;
    session.pause_capture();
    assert!(matches!(session.capture.state, CaptureState::Paused));
    assert_eq!(session.capture.selected_device.as_deref(), Some("fixture"));
    // Paused state does not auto-start when periodic device discovery succeeds.
    session.capture.devices.push(device("fixture", "device"));
    assert!(session.capture.reconcile_device_selection().is_empty());
    let mut budget = QueueBudget::default();
    let stale = logcat(old_session, queued(sample(1, "stale"), &mut budget));
    assert!(budget.used > 0);
    session.handle_event(stale, &mut budget);
    assert_eq!(budget.used, 0);
    assert!(matches!(session.capture.state, CaptureState::Paused));
    assert_eq!(session.logs.entries.len(), 1);
    session.capture.buffer_draft = vec![LogBuffer::Crash];
    assert!(session.apply_buffers().is_empty());
    assert_eq!(session.capture.buffers, [LogBuffer::Crash]);
    assert!(session.config_dirty);
    assert!(matches!(session.capture.state, CaptureState::Paused));
    session.close_capture();
    assert!(session.capture.selected_device.is_none());
    assert_eq!(session.logs.entries.len(), 1);
}

#[test]
fn multi_selection_shortcuts_copy_only_filtered_rows_and_respect_text_focus() {
    let mut session = session();
    for index in 0..5 {
        append(&mut session, sample(index, "message\ncontinuation"));
    }
    session.logs.matches = vec![0, 2, 4];
    press(&mut session, key(NavigationKey::Home), false);
    press(
        &mut session,
        Shortcut::Navigate {
            key: NavigationKey::ArrowDown,
            extend: true,
        },
        false,
    );
    let expected = format!(
        "{}\n{}",
        session.logs.entries[0].copy_text(),
        session.logs.entries[2].copy_text()
    );
    assert_eq!(session.copy_request(true, false), Some(expected));
    press(&mut session, Shortcut::SelectAll, false);
    assert!(session.logs.selection.contains(4));
    assert!(!session.logs.selection.contains(1));
    assert_eq!(
        press(&mut session, Shortcut::Escape, false),
        Some(FocusChange::Keep)
    );
    assert!(session.logs.selection.is_empty());
    press(&mut session, Shortcut::Find, false);
    assert_eq!(press(&mut session, Shortcut::SelectAll, true), None);
    assert!(session.logs.selection.is_empty());
}

#[test]
fn selecting_during_capture_stops_following_until_explicit_resume() {
    let mut session = session();
    session.show_details = false;
    for index in 0..300 {
        append(&mut session, sample(index, "live message"));
    }
    session.end_table_frame(None);
    assert!(session.follow_logs);
    session.browse();
    assert!(
        !session.follow_logs,
        "stop on press, before the click completes"
    );
    for index in 300..400 {
        append(&mut session, sample(index, "arrived while mouse held"));
    }
    session.end_table_frame(Some((271, false, false)));
    let selected = session
        .logs
        .selected
        .expect("release must still select the original row");
    assert!(
        selected < 300,
        "new arrivals must not replace the row under the mouse"
    );
    assert_eq!(
        session.copy_request(true, false),
        Some(session.logs.entries[selected].copy_text())
    );
    assert_eq!(
        session.logs.entries.len(),
        400,
        "capture continues while browsing"
    );
    press(&mut session, Shortcut::Latest, false);
    assert!(session.follow_logs);
    assert_eq!(session.scroll_target(), ScrollTarget::Bottom(399));
    press(&mut session, key(NavigationKey::Home), false);
    assert!(!session.follow_logs);
}

#[test]
fn keys_rest_while_a_dialog_or_a_popup_is_open() {
    let mut session = session();
    append(&mut session, sample(0, "message"));
    session.package_popup_open = true;
    assert!(!session.allows(Shortcut::SelectAll, false, false));
    assert!(session.allows(Shortcut::Slash, false, false));
    session.apply_shortcut(Shortcut::Escape, true);
    assert!(!session.package_popup_open);
    assert!(!session.allows(Shortcut::Latest, false, true));
    session.show_save_filter = true;
    assert!(!session.allows(Shortcut::Find, false, false));
    assert!(!session.allows_copy(false, false));
}

#[test]
fn clicked_rows_are_scrolled_to() {
    let mut session = session();
    for index in 0..4 {
        append(&mut session, sample(index, "message"));
    }
    session.logs.matches = vec![1, 3];
    session.end_table_frame(Some((3, false, false)));
    assert_eq!(session.logs.selected, Some(3));
    assert_eq!(session.scroll_target(), ScrollTarget::Row(1));
    session.end_table_frame(Some((3, false, true)));
    assert_eq!(session.logs.selected, None);
    assert_eq!(session.scroll_target(), ScrollTarget::Stay);
    session.follow_latest();
    assert_eq!(session.scroll_target(), ScrollTarget::Bottom(1));
    session.end_table_frame(None);
    assert_eq!(session.scroll_target(), ScrollTarget::Stay);
}

#[test]
fn choosing_a_device_starts_its_log_from_nothing() {
    let mut session = Session::new(AppConfig::default(), true);
    assert!(matches!(
        session.capture.state,
        CaptureState::WaitingForDevice
    ));
    append(&mut session, sample(0, "old"));
    let (commands, filter) = send(
        &mut session,
        BackendEvent::Devices(Ok(vec![
            device("abc", "device"),
            device("xyz", "unauthorized"),
        ])),
    );
    assert!(commands.is_empty() && filter.is_none());
    let commands = session.switch_device("abc".to_owned());
    assert_eq!(commands.len(), 3);
    assert!(matches!(&commands[0], Command::QueryPackages { serial } if serial == "abc"));
    assert!(matches!(&commands[1], Command::ResetProcessClock));
    assert!(matches!(
        &commands[2],
        Command::StartLogcat { session_id, serial, buffers }
            if *session_id == session.capture.session_id
                && serial == "abc"
                && *buffers == LogBuffer::defaults()
    ));
    assert!(session.logs.entries.is_empty());
    assert!(matches!(session.capture.state, CaptureState::Connecting));
    session.capture.logcat_started(Ok(()));
    assert!(session.capture.capturing);
    assert!(session.switch_device("abc".to_owned()).is_empty());

    let current = session.capture.session_id;
    send(&mut session, logcat(current, LogcatEvent::Started));
    assert!(matches!(session.capture.state, CaptureState::Running));
    assert_eq!(session.capture.state.label(), "实时 Logcat");

    let commands = session.switch_device("xyz".to_owned());
    assert!(matches!(commands[..], [Command::StopLogcat]));
    assert!(matches!(
        session.capture.state,
        CaptureState::WaitingForDevice
    ));
}

#[test]
fn a_device_that_goes_away_is_deselected() {
    let mut session = Session::new(AppConfig::default(), true);
    send(
        &mut session,
        BackendEvent::Devices(Ok(vec![device("abc", "device")])),
    );
    session.switch_device("abc".to_owned());
    session.capture.logcat_started(Ok(()));
    send(
        &mut session,
        BackendEvent::Packages {
            serial: "abc".to_owned(),
            result: Ok(vec!["a".to_owned()]),
        },
    );
    assert_eq!(session.capture.packages, ["a"]);
    assert!(!session.capture.package_query_pending);
    let (commands, _) = send(
        &mut session,
        BackendEvent::Devices(Err("server gone".to_owned())),
    );
    assert!(matches!(commands[..], [Command::StopLogcat]));
    assert_eq!(session.capture.adb_status, "server gone");
    assert!(session.capture.selected_device.is_none());
    assert!(session.capture.packages.is_empty());
    assert!(!session.capture.capturing);
    assert!(matches!(
        session.capture.state,
        CaptureState::WaitingForDevice
    ));
}

#[test]
fn answers_for_another_device_are_ignored() {
    let mut session = Session::new(AppConfig::default(), true);
    session.capture.selected_device = Some("abc".to_owned());
    session.capture.package_query_pending = true;
    session.capture.process_query_pending = true;
    append(&mut session, LogEntry::new("", 7, 7, "T", Level::Info, "m"));
    send(
        &mut session,
        BackendEvent::Packages {
            serial: "xyz".to_owned(),
            result: Ok(vec!["a".to_owned()]),
        },
    );
    send(
        &mut session,
        BackendEvent::Processes {
            serial: "xyz".to_owned(),
            result: Ok(HashMap::from([(7, "app".to_owned())])),
        },
    );
    assert!(session.capture.packages.is_empty());
    assert!(session.capture.package_query_pending && session.capture.process_query_pending);
    assert!(session.logs.entries[0].process.is_none());
    send(
        &mut session,
        BackendEvent::Packages {
            serial: "abc".to_owned(),
            result: Err("denied".to_owned()),
        },
    );
    assert_eq!(session.capture.adb_status, "denied");
    send(
        &mut session,
        BackendEvent::Processes {
            serial: "abc".to_owned(),
            result: Ok(HashMap::from([(7, "app".to_owned())])),
        },
    );
    assert!(!session.capture.process_query_pending);
    assert_eq!(session.logs.entries[0].process.as_deref(), Some("app"));
}

#[test]
fn the_end_of_a_session_is_shown() {
    let mut session = Session::new(AppConfig::default(), true);
    session.capture.devices.push(device("abc", "device"));
    session.switch_device("abc".to_owned());
    session.capture.logcat_started(Ok(()));
    let current = session.capture.session_id;
    send(
        &mut session,
        logcat(current, LogcatEvent::Stderr("- waiting -".to_owned())),
    );
    let exited = |code: Option<i32>, error: Option<&str>| {
        logcat(
            current,
            LogcatEvent::Exited {
                code,
                error: error.map(str::to_owned),
            },
        )
    };
    let (commands, _) = send(&mut session, exited(Some(-1), Some("broken")));
    assert!(matches!(commands[..], [Command::StopLogcat]));
    assert_eq!(session.capture.state.label(), "broken");
    send(&mut session, exited(Some(-1), None));
    assert_eq!(session.capture.state.label(), "- waiting -");
    send(&mut session, exited(Some(-1), None));
    assert_eq!(session.capture.state.label(), "Logcat stopped (-1)");
    send(&mut session, exited(None, None));
    assert_eq!(session.capture.state.label(), "Logcat stopped");
    let color = session.capture.state.color();
    assert_eq!((color.red, color.green, color.blue), (235, 91, 101));

    let commands = session.capture.retry_capture();
    assert!(matches!(commands[..], [Command::StartLogcat { .. }]));
    session
        .capture
        .logcat_started(Err("failed to start adb logcat: gone".to_owned()));
    assert_eq!(
        session.capture.state.label(),
        "failed to start adb logcat: gone"
    );
}

#[test]
fn regular_questions_are_asked_when_due() {
    let mut session = Session::new(AppConfig::default(), true);
    assert!(
        session
            .capture
            .schedule_periodic_queries(1999, 10_000)
            .is_empty()
    );
    let commands = session.capture.schedule_periodic_queries(2000, 10_000);
    assert!(matches!(commands[..], [Command::QueryDevices]));
    assert!(
        session
            .capture
            .schedule_periodic_queries(10_000, 10_000)
            .is_empty()
    );
    session.capture.devices.push(device("abc", "device"));
    session.switch_device("abc".to_owned());
    session.capture.logcat_started(Ok(()));
    assert!(
        session
            .capture
            .schedule_periodic_queries(0, 749)
            .is_empty()
    );
    let commands = session.capture.schedule_periodic_queries(0, 750);
    assert!(matches!(&commands[..], [Command::QueryProcesses { serial }] if serial == "abc"));
    session.capture.adb_available = false;
    session.capture.process_query_pending = false;
    assert!(
        session
            .capture
            .schedule_periodic_queries(10_000, 10_000)
            .is_empty()
    );
}

#[test]
fn looking_for_the_bridge_again_can_find_or_lose_it() {
    let mut session = session();
    let commands = session.refresh_devices(true);
    assert!(matches!(commands[..], [Command::QueryDevices]));
    assert!(matches!(
        session.capture.state,
        CaptureState::WaitingForDevice
    ));
    assert!(session.refresh_devices(false).is_empty());
    assert!(session.capture.adb_available);
    session.capture.device_query_pending = false;
    session.capture.devices.push(device("abc", "device"));
    session.capture.selected_device = Some("abc".to_owned());
    assert!(session.refresh_devices(false).is_empty());
    assert!(matches!(session.capture.state, CaptureState::NoAdb));
    assert!(session.capture.selected_device.is_none());
    assert!(session.capture.devices.is_empty());
}

#[test]
fn buffers_are_chosen_and_then_applied() {
    let mut session = Session::new(AppConfig::default(), true);
    session.capture.devices.push(device("abc", "device"));
    session.switch_device("abc".to_owned());
    session.capture.logcat_started(Ok(()));
    assert_eq!(session.buffer_summary(), "main+system+crash");
    session.capture.toggle_buffer(LogBuffer::All, true);
    assert_eq!(session.capture.buffer_draft, [LogBuffer::All]);
    session.capture.toggle_buffer(LogBuffer::Radio, true);
    session.capture.toggle_buffer(LogBuffer::Main, true);
    assert_eq!(
        session.capture.buffer_draft,
        [LogBuffer::Radio, LogBuffer::Main]
    );
    session.capture.toggle_buffer(LogBuffer::Radio, false);
    assert_eq!(session.capture.buffer_draft, [LogBuffer::Main]);
    let commands = session.apply_buffers();
    assert!(matches!(
        &commands[..],
        [Command::StopLogcat, Command::StartLogcat { buffers, .. }]
            if *buffers == [LogBuffer::Main]
    ));
    session.config_dirty = false;
    assert!(session.apply_buffers().is_empty());
    assert!(!session.config_dirty);
}

#[test]
fn entries_are_named_when_their_processes_are_known() {
    let mut session = session();
    let entry = |pid: u32| LogEntry::new("", pid, pid, "T", Level::Info, "m");
    for pid in [7, 0, 8, 7] {
        append(&mut session, entry(pid));
    }
    session.edit_package("app".to_owned());
    let request = session.logs.schedule_filter();
    answer_filter(&mut session, &request);
    assert!(session.logs.matches.is_empty());
    let table = HashMap::from([(7, "app".to_owned()), (9, "other".to_owned())]);
    assert!(session.logs.can_name(&table));
    let request = session.logs.update_processes(table).unwrap();
    answer_filter(&mut session, &request);
    assert_eq!(session.logs.matches, [0, 3]);
    append(&mut session, entry(7));
    append(&mut session, entry(9));
    assert_eq!(session.logs.matches, [0, 3, 4]);
    assert_eq!(session.logs.entries[5].process_name(), "other");
    assert_eq!(session.logs.entries[2].process_name(), "—");
    assert!(session.logs.update_processes(HashMap::new()).is_none());
    session.logs.forget_processes();
    append(&mut session, entry(7));
    assert!(session.logs.entries[6].process.is_none());
}

#[test]
fn idle_view_shows_what_passes_the_settings() {
    let mut session = session();
    for index in 0..60 {
        append(&mut session, sample(index, if index % 2 == 0 { "a.c" } else { "abc" }));
    }
    session.edit_query("a.c".to_owned());
    session.edit_min_level(Level::Warn);
    assert!(session.config_dirty);
    assert!(!session.filter_due(119));
    assert!(session.filter_due(120));
    assert_eq!(session.empty_message(), "Filtering logs…");
    let request = session.logs.schedule_filter();
    append(&mut session, sample(64, "a.c"));
    answer_filter(&mut session, &request);
    let expected: Vec<usize> = (0..session.logs.entries.len())
        .filter(|row| {
            let entry = &session.logs.entries[*row];
            entry.level >= Level::Warn && entry.message.contains("a.c")
        })
        .collect();
    assert!(expected.contains(&60));
    assert_eq!(session.logs.matches, expected);
    assert_eq!(
        session.logs.filter_elapsed,
        Some(Duration::from_millis(7))
    );
    assert_eq!(session.match_label(), "11 matches");
}

#[test]
fn invalid_queries_are_explained_and_keep_the_rows() {
    let mut session = session();
    append(&mut session, sample(0, "message"));
    session.edit_query("(".to_owned());
    session.edit_query_mode(true, false);
    let request = session.logs.schedule_filter();
    let error = session.logs.filter_error.clone().unwrap();
    assert!(error.starts_with("Invalid regex: "));
    answer_filter(&mut session, &request);
    assert_eq!(session.logs.filter_error, Some(error));
    assert_eq!(session.logs.matches, [0]);
    append(&mut session, sample(1, "message"));
    assert_eq!(session.logs.matches, [0]);
    session.logs.clear_logs();
    assert_eq!(
        session.empty_message(),
        "Invalid regular expression. Correct the query or turn off .* ."
    );
}

#[test]
fn saved_filters_come_back_as_they_were() {
    let mut session = session();
    session.edit_package(" com.example ".to_owned());
    session.edit_query("timeout|failed".to_owned());
    session.edit_query_mode(true, true);
    session.edit_min_level(Level::Error);
    session.show_save_filter = true;
    session.close_save_dialog(true, false, true);
    assert!(session.show_save_filter && session.saved_filters.is_empty());
    session.save_filter_name = " Network ".to_owned();
    session.close_save_dialog(true, false, true);
    assert!(!session.show_save_filter && session.save_filter_name.is_empty());
    let expected = SavedFilter {
        name: "Network".to_owned(),
        package: "com.example".to_owned(),
        min_level: Level::Error,
        query: "timeout|failed".to_owned(),
        regex: true,
        case_sensitive: true,
    };
    assert_eq!(session.saved_filters, [expected.clone()]);
    let config = session.app_config();
    assert_eq!(config.saved_filters, session.saved_filters);
    assert_eq!(config.query, "timeout|failed");

    let mut other = Session::new(config, false);
    assert_eq!(other.saved_filters, [expected.clone()]);
    assert_eq!(other.logs.min_level, Level::Error);
    let mut changed = expected;
    changed.query = "other".to_owned();
    let request = other.apply_saved_filter(changed);
    assert_eq!(request.generation, 1);
    assert_eq!(request.spec.query, "other");
    assert!(other.config_due(600) && !other.config_due(599));
    other.delete_saved_filter(0);
    assert!(other.saved_filters.is_empty());
    session.close_save_dialog(true, true, false);
    assert!(!session.show_save_filter);
}

#[test]
fn labels_tell_the_state() {
    let mut session = session();
    assert_eq!(session.device_label(), "无设备");
    assert_eq!(
        session.empty_message(),
        "Install Android platform-tools, then click Refresh to find ADB."
    );
    session.capture.devices.push(device("a_b", "device"));
    assert_eq!(session.device_label(), "选择设备");
    session.capture.selected_device = Some("a_b".to_owned());
    assert_eq!(session.device_label(), "a b · USB");
    assert_eq!(session.dropped_label(), "");
    session.logs.dropped_entries = 1234;
    assert_eq!(session.dropped_label(), " · 1,234 dropped");
    session.capture.packages = vec![
        "com.example.app".to_owned(),
        "org.sample".to_owned(),
        "com.EXAMPLE.two".to_owned(),
    ];
    session.edit_package(" Example ".to_owned());
    assert_eq!(
        session.package_suggestions(),
        ["com.example.app", "com.EXAMPLE.two"]
    );
}

#[test]
fn the_rate_is_counted_over_a_second() {
    let mut session = session();
    for index in 0..5 {
        append(&mut session, sample(index, "m"));
    }
    assert_eq!(session.take_rate_count(999), None);
    assert_eq!(session.take_rate_count(1000), Some(5));
    assert_eq!(session.take_rate_count(1000), Some(0));
}

#[test]
fn memory_stays_within_its_budget() {
    let mut session = session();
    session.set_memory_limit(0);
    assert_eq!(session.logs.memory_limit_mib, 16);
    let mut trimmed = 0;
    for index in 0..200 {
        let text = "x".repeat(MIB / 4);
        if append(&mut session, sample(index, &text)).is_some() {
            trimmed += 1;
            assert!(session.logs.entries.memory_bytes() <= 16 * MIB * 9 / 10);
            assert!(session.logs.filter_pending);
        }
        assert!(session.logs.entries.memory_bytes() <= 16 * MIB);
    }
    assert!(trimmed > 0);
    assert_eq!(
        session.logs.dropped_entries + session.logs.entries.len(),
        200
    );
    let last = session.logs.entries.len() - 1;
    assert!(session.logs.entries[last].message.starts_with("199:"));
}

#[test]
fn keys_change_nothing_but_the_selection() {
    let mut session = session();
    for index in 0..3 {
        append(&mut session, sample(index, "message"));
    }
    session.edit_query("message".to_owned());
    session.edit_package("com.example.app".to_owned());
    let request = session.logs.schedule_filter();
    answer_filter(&mut session, &request);
    session.config_dirty = false;
    for shortcut in [
        Shortcut::Find,
        Shortcut::Slash,
        Shortcut::SelectAll,
        Shortcut::Escape,
        key(NavigationKey::ArrowUp),
        key(NavigationKey::End),
        key(NavigationKey::Other),
        Shortcut::Latest,
    ] {
        for focused in [true, false] {
            session.apply_shortcut(shortcut, focused);
            assert_eq!(session.logs.query, "message");
            assert_eq!(session.logs.package, "com.example.app");
            assert_eq!(session.logs.matches, [0, 1, 2]);
            assert!(!session.config_dirty && !session.logs.filter_dirty);
        }
    }
}

#[test]
fn only_the_user_chooses_a_device() {
    let mut session = Session::new(AppConfig::default(), true);
    let list = || BackendEvent::Devices(Ok(vec![device("abc", "device")]));
    let (commands, _) = send(&mut session, list());
    assert!(commands.is_empty());
    assert!(session.capture.selected_device.is_none());
    session.switch_device("abc".to_owned());
    session.capture.logcat_started(Ok(()));
    send(&mut session, BackendEvent::Devices(Ok(vec![])));
    assert!(session.capture.selected_device.is_none());
    let (commands, _) = send(&mut session, list());
    assert!(commands.is_empty());
    assert!(session.capture.selected_device.is_none());
}

#[test]
fn a_waiting_device_is_captured_once_it_is_there() {
    let mut session = Session::new(AppConfig::default(), true);
    session.capture.selected_device = Some("abc".to_owned());
    let (commands, _) = send(
        &mut session,
        BackendEvent::Devices(Ok(vec![device("abc", "device")])),
    );
    assert!(matches!(
        &commands[..],
        [Command::StartLogcat { session_id: 1, serial, .. }] if serial == "abc"
    ));
    assert!(matches!(session.capture.state, CaptureState::Connecting));
}

#[test]
fn answers_fit_whatever_came_meanwhile() {
    let mut session = session();
    let entry = |pid: u32, message: &str| LogEntry::new("", pid, pid, "T", Level::Info, message);
    append(&mut session, entry(7, "yes"));
    append(&mut session, entry(8, "no"));
    session.edit_query("yes".to_owned());
    let request = session.logs.schedule_filter();
    append(&mut session, entry(9, "yes"));
    let table = HashMap::from([(7, "app".to_owned())]);
    assert!(session.logs.can_name(&table));
    assert!(session.logs.update_processes(table).is_none());
    assert!(session.logs.matches.is_empty() || session.logs.matches == [0, 1]);
    answer_filter(&mut session, &request);
    assert_eq!(session.logs.matches, [0, 2]);
    append(&mut session, entry(9, "yes"));
    assert_eq!(session.logs.matches, [0, 2, 3]);
    answer_filter(&mut session, &request);
    assert_eq!(session.logs.matches, [0, 2, 3]);
}

#[test]
fn a_hidden_row_is_no_longer_selected() {
    let mut session = session();
    for message in ["keep", "drop", "keep"] {
        append(
            &mut session,
            LogEntry::new("", 0, 0, "T", Level::Info, message),
        );
    }
    session.end_table_frame(Some((0, false, false)));
    session.end_table_frame(Some((1, false, true)));
    assert_eq!(session.logs.selected, Some(1));
    session.edit_query("keep".to_owned());
    let request = session.logs.schedule_filter();
    answer_filter(&mut session, &request);
    assert_eq!(session.logs.selected, None);
    assert_eq!(session.logs.selection.sorted(), [0]);
    assert_eq!(session.logs.selection.anchor, None);
}

#[test]
fn the_filter_tells_what_it_does() {
    let mut session = session();
    assert_eq!(session.filter_status(), FilterStatus::Done);
    session.edit_query("[".to_owned());
    assert_eq!(session.filter_status(), FilterStatus::Busy);
    let request = session.logs.schedule_filter();
    assert_eq!(session.filter_status(), FilterStatus::Busy);
    answer_filter(&mut session, &request);
    assert_eq!(session.filter_status(), FilterStatus::Done);
    session.edit_query_mode(true, false);
    session.logs.schedule_filter();
    assert_eq!(session.filter_status(), FilterStatus::Failed);
}

#[test]
fn details_follow_the_selection_unless_switched_off() {
    let mut session = session();
    append(&mut session, sample(0, "first"));
    append(&mut session, sample(1, "second"));
    assert!(session.detailed_entry().is_none());
    session.end_table_frame(Some((1, false, false)));
    let shown = session.detailed_entry().unwrap();
    assert_eq!(shown.message.as_ref(), "1: second");
    session.show_details = false;
    assert!(session.detailed_entry().is_none());
}

#[test]
fn settings_survive_a_restart() {
    let mut session = session();
    session.edit_package(" com.example ".to_owned());
    session.edit_query("x".to_owned());
    session.edit_min_level(Level::Warn);
    session.set_memory_limit(9999);
    session.dark = false;
    session.capture.buffer_draft = vec![LogBuffer::Radio, LogBuffer::Main, LogBuffer::Radio];
    session.apply_buffers();
    let again = Session::new(session.app_config(), false);
    assert_eq!(again.logs.package, " com.example ");
    assert_eq!(again.logs.query, "x");
    assert_eq!(again.logs.min_level, Level::Warn);
    assert_eq!(again.logs.memory_limit_mib, 4096);
    assert!(!again.dark && again.show_details);
    assert_eq!(again.capture.buffers, [LogBuffer::Main, LogBuffer::Radio]);
}

#[test]
fn without_a_usable_device_the_device_box_says_so() {
    let mut session = Session::new(AppConfig::default(), true);
    assert!(!session.capture.has_usable_device());
    session
        .capture
        .devices
        .push(device("abc", "unauthorized"));
    assert_eq!(session.device_label(), "无设备");
    assert!(!session.capture.has_usable_device());
    session.capture.devices.push(device("xyz", "offline"));
    assert_eq!(session.device_label(), "无设备");
    session.capture.devices.push(device("def", "device"));
    assert_eq!(session.device_label(), "选择设备");
    assert!(session.capture.has_usable_device());
    session.capture.selected_device = Some("abc".to_owned());
    assert_eq!(session.device_label(), "abc · unauthorized");
}

#[test]
fn old_events_are_taken_in_even_where_the_counters_are_full() {
    let mut session = session();
    session.logs.logs_in_rate_window = usize::MAX;
    let mut budget = QueueBudget::default();
    let stale = logcat(77, queued(sample(0, "stale"), &mut budget));
    assert!(!session.can_count());
    assert!(session.can_accept(&stale, &budget));
    let current = logcat(0, queued(sample(0, "current"), &mut budget));
    assert!(!session.can_accept(&current, &budget));
    let effects = session.handle_event(stale, &mut budget);
    assert!(effects.commands.is_empty() && effects.filter.is_none());
    assert!(session.logs.entries.is_empty());
    let left = budget.used;
    session.logs.logs_in_rate_window = 0;
    session.handle_event(current, &mut budget);
    assert_eq!(session.logs.entries.len(), 1);
    assert!(left > 0 && budget.used == 0);
}

#[test]
fn a_table_that_names_nothing_new_starts_no_filter() {
    let mut session = session();
    append(
        &mut session,
        LogEntry::new("", 7, 7, "T", Level::Info, "m"),
    );
    session.edit_package("app".to_owned());
    let request = session.logs.schedule_filter();
    answer_filter(&mut session, &request);
    let table = || HashMap::from([(7, "app".to_owned()), (8, "b".to_owned())]);
    let request = session.logs.update_processes(table()).unwrap();
    answer_filter(&mut session, &request);
    assert!(session.logs.unresolved.is_empty());
    let generation = session.logs.filter_generation;
    assert!(session.logs.update_processes(table()).is_none());
    assert_eq!(session.logs.filter_generation, generation);
    assert!(!session.logs.filter_pending);
    append(
        &mut session,
        LogEntry::new("", 9, 9, "T", Level::Info, "m"),
    );
    assert!(session.logs.update_processes(table()).is_none());
    assert_eq!(session.logs.unresolved.len(), 1);
}
