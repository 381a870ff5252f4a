use std::path::PathBuf;

use ciallogcat::adb::{parse_devices, parse_packages, parse_processes, DeviceInfo};
use ciallogcat::bridge::{
    adb_candidates, adb_executable_name, adb_reply, device_query_args, devices_from, exit_report,
    labelled, logcat_args, needs_all_columns, package_query_args, packages_from,
    parse_scoop_shim_target, process_query_args, processes_from, AdbEnvironment, AdbVariable,
    ProcessEnd, SearchRoot, StopOutcome,
};
use ciallogcat::model::{Level, LogBuffer, LogEntry};
use ciallogcat::queue::{
    reservation, QueueBudget, QueuePermit, QueuedLogEntry, QUEUE_BYTES,
};
use ciallogcat::stream::{
    entry_from_groups, parse_logcat_line, parse_raw_line, read_logcat_stream, LineParser,
    LineReader,
    MAX_LINE_BYTES,
};

fn parser() -> LineParser {
    LineParser::new().ok().expect("valid threadtime parser")
}

#[test]
fn selected_buffers_are_explicit_logcat_arguments() {
    assert_eq!(
        logcat_args("device", &[LogBuffer::System, LogBuffer::Crash]),
        [
            "-s",
            "device",
            "logcat",
            "-v",
            "threadtime",
            "-T",
            "1",
            "-b",
            "system",
            "-b",
            "crash"
        ]
    );
    let args = logcat_args("device", &[LogBuffer::All, LogBuffer::Main]);
    assert_eq!(&args[7..], ["-b", "all"]);
    assert!(!args.iter().any(|arg| arg == "-c"));
    assert_eq!(
        &logcat_args("device", &[])[7..],
        ["-b", "main", "-b", "system", "-b", "crash"]
    );
}

#[test]
fn oversized_stream_line_is_bounded_and_next_line_is_read() {
    let mut input = b"09-06 12:34:56.789 1234 1235 I Tag: ".to_vec();
    input.extend(std::iter::repeat_n(b'x', MAX_LINE_BYTES * 2));
    input.extend_from_slice(b"\n09-06 12:34:56.790 1234 1235 I Tag: next\n");
    let entries = read_logcat_stream(&parser(), input.as_slice());
    assert_eq!(entries.len(), 2);
    assert!(entries[0].message.len() < MAX_LINE_BYTES + 100);
    assert!(entries[0].message.contains("truncated:"));
    assert_eq!(entries[1].message.as_ref(), "next");
}

#[test]
fn consuming_queue_entry_releases_byte_reservation() {
    let mut budget = QueueBudget::default();
    budget.used = 123;
    let entry = QueuedLogEntry {
        entry: LogEntry::marker("data"),
        permit: QueuePermit { bytes: 123 },
    };
    let log = entry.into_inner(&mut budget);
    assert_eq!(budget.used, 0);
    assert_eq!(log.message.as_ref(), "data");
}

#[test]
fn queue_byte_budget_blocks_producer_until_space_is_released() {
    let mut budget = QueueBudget::default();
    let full = budget.reserve(QUEUE_BYTES).unwrap();
    assert!(budget.reserve(1).is_none());
    assert_eq!(budget.used, QUEUE_BYTES);
    budget.release(full);
    let permit = budget.reserve(1).unwrap();
    assert_eq!(budget.used, 1);
    budget.release(permit);
    assert_eq!(budget.used, 0);
}

#[test]
fn oversized_entries_reserve_the_whole_queue_and_no_more() {
    let small = LogEntry::marker("data");
    assert_eq!(
        reservation(&small),
        small.payload_bytes() + std::mem::size_of::<LogEntry>()
    );
    let huge = LogEntry::marker("x".repeat(QUEUE_BYTES));
    assert_eq!(reservation(&huge), QUEUE_BYTES);

    let mut budget = QueueBudget::default();
    let queued = QueuedLogEntry::queue(huge, &mut budget).unwrap();
    assert_eq!(budget.used, QUEUE_BYTES);
    let back = QueuedLogEntry::queue(small, &mut budget).err().unwrap();
    assert_eq!(back.message.as_ref(), "data");
    queued.into_inner(&mut budget);
    assert_eq!(budget.used, 0);
}

#[test]
fn devices_include_transport_and_state() {
    let devices = parse_devices(
        "List of devices attached\nABC123 device product:foo model:Pixel_9 device:foo transport_id:1\n192.168.1.4:5555 unauthorized\n",
    );
    assert_eq!(devices.len(), 2);
    assert_eq!(devices[0].display_name(), "Pixel 9 · USB");
    assert!(!devices[1].available());
    assert_eq!(devices[1].transport, "Wi-Fi");
}

#[test]
fn device_lines_that_name_no_device_are_skipped() {
    let devices = parse_devices(
        "* daemon not running; starting now at tcp:5037\n* daemon started successfully\r\nList of devices attached\n\n  emulator-5554\tdevice \nlonely\n",
    );
    assert_eq!(
        devices,
        vec![DeviceInfo {
            serial: "emulator-5554".to_owned(),
            state: "device".to_owned(),
            model: None,
            transport: "Emulator",
        }]
    );
    assert_eq!(devices[0].display_name(), "emulator-5554 · Emulator");
    let copy = devices[0].clone();
    assert_eq!(copy, devices[0]);
}

#[test]
fn an_unusable_device_shows_its_state() {
    let devices = parse_devices("192.168.1.4:5555 offline model:A_b\n");
    assert_eq!(devices[0].display_name(), "A b · offline");
}

#[test]
fn package_list_is_sorted_and_deduplicated() {
    assert_eq!(
        parse_packages("package:z.app\npackage:a.app\npackage:z.app\n"),
        ["a.app", "z.app"]
    );
}

#[test]
fn package_lines_without_a_name_are_skipped() {
    assert_eq!(
        parse_packages("noise\n  package:b.app extra\npackage:\npackage:  \n package:B.app\n"),
        ["B.app", "b.app"]
    );
}

#[test]
fn process_table_supports_compact_and_android_ps_headers() {
    let compact = parse_processes("PID NAME\n123 com.example.app\n");
    assert_eq!(
        compact.get(&123).map(String::as_str),
        Some("com.example.app")
    );

    let full = parse_processes(
        "USER PID PPID VSZ RSS WCHAN ADDR S NAME\nu0_a1 456 1 0 0 0 0 S com.example.app:sync\n",
    );
    assert_eq!(
        full.get(&456).map(String::as_str),
        Some("com.example.app:sync")
    );
}

#[test]
fn process_rows_that_do_not_fit_are_skipped() {
    let table = parse_processes(
        "\n  \nPID CMDLINE\n1 one\nx two\n-3 three\n+4 four\n4294967296 five\n6\n1 again\n",
    );
    assert_eq!(table.len(), 2);
    assert_eq!(table.get(&1).map(String::as_str), Some("again"));
    assert_eq!(table.get(&4).map(String::as_str), Some("four"));
    assert!(parse_processes("USER NAME\nu0 app\n").is_empty());
    assert!(parse_processes("\n \n").is_empty());
    let last = parse_processes("PID USER COMMAND\n7 u0 app\n");
    assert_eq!(last.get(&7).map(String::as_str), Some("app"));
}

#[test]
fn threadtime_log_is_structured() {
    let entry = parse_logcat_line(
        &parser(),
        "08-29 15:42:10.123  1234  1260 W MainActivity: request timeout",
    )
    .unwrap();
    assert_eq!(entry.time.as_ref(), "08-29 15:42:10.123");
    assert_eq!(entry.pid, 1234);
    assert_eq!(entry.tid, 1260);
    assert_eq!(entry.level, Level::Warn);
    assert_eq!(entry.tag.as_ref(), "MainActivity");
    assert_eq!(entry.message.as_ref(), "request timeout");
}

#[test]
fn other_lines_are_kept_as_markers() {
    let parser = parser();
    assert!(parse_logcat_line(&parser, " \t ").is_none());
    let divider = parse_logcat_line(&parser, "--------- beginning of main ").unwrap();
    assert_eq!(divider.message.as_ref(), "--------- beginning of main");
    assert_eq!(divider.tag.as_ref(), "logcat");
    assert_eq!(divider.level, Level::Info);
    assert_eq!((divider.pid, divider.tid), (0, 0));
    let plain = parse_logcat_line(&parser, "  read: unexpected EOF! ").unwrap();
    assert_eq!(plain.message.as_ref(), "read: unexpected EOF!");
    let dated = parse_logcat_line(
        &parser,
        "2024-08-29 15:42:10.123  1  2 A  lib : a: b",
    )
    .unwrap();
    assert_eq!(dated.time.as_ref(), "2024-08-29 15:42:10.123");
    assert_eq!(dated.level, Level::Fatal);
    assert_eq!(dated.tag.as_ref(), "lib");
    assert_eq!(dated.message.as_ref(), "a: b");
}

#[test]
fn structured_lines_with_unusable_fields_are_dropped() {
    let parser = parser();
    assert!(parse_logcat_line(&parser, "08-29 15:42:10.123  1  2 S Tag: silent").is_none());
    assert!(
        parse_logcat_line(&parser, "08-29 15:42:10.123  4294967296  2 I Tag: big").is_none()
    );
}

#[test]
fn groups_decide_what_a_line_becomes() {
    let text = |value: &str| Some(value.to_owned());
    let groups = Some(vec![
        text("all"),
        text(" t "),
        text("1"),
        text("+2"),
        text("E"),
        text(" tag "),
        text(" message "),
    ]);
    let entry = entry_from_groups("line", &groups).unwrap();
    assert_eq!(entry.time.as_ref(), "t");
    assert_eq!((entry.pid, entry.tid), (1, 2));
    assert_eq!(entry.level, Level::Error);
    assert_eq!(entry.tag.as_ref(), "tag");
    assert_eq!(entry.message.as_ref(), " message ");
    assert!(entry.process.is_none());

    let missing = Some(vec![
        text("all"),
        text("t"),
        text("1"),
        text("2"),
        text("E"),
        None,
        text("m"),
    ]);
    assert!(entry_from_groups("line", &missing).is_none());
    assert!(entry_from_groups("line", &Some(vec![text("all")])).is_none());
    assert_eq!(
        entry_from_groups(" line ", &None).unwrap().message.as_ref(),
        "line"
    );
}

#[test]
fn logcat_stream_replaces_invalid_utf8_and_keeps_reading() {
    let mut input = b"08-29 15:42:10.123  1234  1260 I MainActivity: before\n".to_vec();
    input.extend_from_slice(b"08-29 15:42:10.124  1234  1260 W MainActivity: damaged byte ");
    input.push(0xD5);
    input.extend_from_slice(b"\n08-29 15:42:10.125  1234  1260 I MainActivity: after\n");

    let entries = read_logcat_stream(&parser(), input.as_slice());

    assert_eq!(entries.len(), 3);
    assert_eq!(entries[0].message.as_ref(), "before");
    assert!(entries[1].message.contains('\u{FFFD}'));
    assert_eq!(entries[2].message.as_ref(), "after");
}

#[test]
fn lines_are_the_same_however_the_stream_is_cut() {
    let input = b"first\r\nsecond\n\nlast";
    for size in 1..=input.len() {
        let mut reader = LineReader::new();
        let mut lines = Vec::new();
        for part in input.chunks(size) {
            let mut rest = part;
            while !rest.is_empty() {
                let (taken, ended) = reader.feed(rest);
                rest = &rest[taken..];
                if ended {
                    lines.push(reader.finish().unwrap());
                }
            }
        }
        lines.push(reader.finish().unwrap());
        assert!(reader.finish().is_none());
        assert_eq!(
            lines,
            [
                b"first".to_vec(),
                b"second".to_vec(),
                Vec::new(),
                b"last".to_vec()
            ]
        );
    }
}

#[test]
fn a_line_at_the_limit_is_not_cut() {
    let mut reader = LineReader::new();
    let mut bytes = vec![b'x'; MAX_LINE_BYTES - 1];
    bytes.push(b'\n');
    assert_eq!(reader.feed(&bytes), (MAX_LINE_BYTES, true));
    assert_eq!(reader.finish().unwrap().len(), MAX_LINE_BYTES - 1);

    let mut longer = vec![b'x'; MAX_LINE_BYTES];
    longer.push(b'\n');
    reader.feed(&longer);
    let line = reader.finish().unwrap();
    assert_eq!(line.len(), MAX_LINE_BYTES + 37);
    assert!(line.ends_with(b" [truncated: log line exceeded 1 MiB]"));
}

#[test]
fn scoop_shim_points_to_real_adb() {
    assert_eq!(
        parse_scoop_shim_target(
            "path = \"C:\\Users\\me\\scoop\\apps\\adb\\current\\adb.exe\"\n"
        )
        .map(PathBuf::from),
        Some(PathBuf::from(r"C:\Users\me\scoop\apps\adb\current\adb.exe"))
    );
}

#[test]
fn the_first_quoted_path_of_a_launcher_counts() {
    assert_eq!(
        parse_scoop_shim_target("args = x\n path = \"open\n\tpath = \"a\" \npath = \"b\"\n"),
        Some("a".to_owned())
    );
    assert_eq!(parse_scoop_shim_target("path = \""), None);
    assert_eq!(parse_scoop_shim_target("path = \"\""), Some(String::new()));
}

#[test]
fn the_bridge_is_looked_for_in_order() {
    let env = AdbEnvironment {
        ciallogcat_adb: true,
        adb: false,
        android_sdk_root: false,
        android_home: true,
        path_entries: 2,
        home: true,
        local_app_data: false,
    };
    let order: Vec<_> = adb_candidates(env, false)
        .into_iter()
        .map(|candidate| (candidate.root, candidate.below))
        .collect();
    assert_eq!(
        order,
        vec![
            (SearchRoot::Variable(AdbVariable::CiallogcatAdb), vec![]),
            (
                SearchRoot::Variable(AdbVariable::AndroidHome),
                vec!["platform-tools", "adb"]
            ),
            (SearchRoot::PathEntry(0), vec!["adb"]),
            (SearchRoot::PathEntry(1), vec!["adb"]),
            (
                SearchRoot::Variable(AdbVariable::Home),
                vec!["Android", "Sdk", "platform-tools", "adb"]
            ),
        ]
    );
    assert_eq!(adb_executable_name(true), "adb.exe");
    assert_eq!(AdbVariable::LocalAppData.name(), "LOCALAPPDATA");
}

#[test]
fn questions_to_the_bridge_are_complete() {
    assert_eq!(device_query_args(), ["devices", "-l"]);
    assert_eq!(
        package_query_args("abc"),
        ["-s", "abc", "shell", "pm", "list", "packages", "-3"]
    );
    assert_eq!(
        process_query_args("abc", false),
        ["-s", "abc", "shell", "ps", "-A", "-o", "PID,NAME"]
    );
    assert_eq!(
        process_query_args("abc", true),
        ["-s", "abc", "shell", "ps", "-A"]
    );
}

#[test]
fn replies_are_the_output_or_the_reason() {
    assert_eq!(
        adb_reply(true, "exit status: 0", b"out\xff", b"noise"),
        Ok("out\u{FFFD}".to_owned())
    );
    assert_eq!(
        adb_reply(false, "exit status: 1", b"out", b" no devices \n"),
        Err("no devices".to_owned())
    );
    assert_eq!(
        adb_reply(false, "exit status: 1", b"out", b" \n"),
        Err("adb exited with exit status: 1".to_owned())
    );
    assert_eq!(
        labelled("failed to start adb logcat", "gone"),
        "failed to start adb logcat: gone"
    );
}

#[test]
fn replies_are_read_or_passed_on() {
    assert_eq!(
        devices_from(Ok("abc device\n".to_owned())).unwrap()[0].serial,
        "abc"
    );
    assert_eq!(devices_from(Err("x".to_owned())), Err("x".to_owned()));
    assert_eq!(
        packages_from(Ok("package:b\npackage:a\n".to_owned())).unwrap(),
        ["a", "b"]
    );
    assert_eq!(packages_from(Err("x".to_owned())), Err("x".to_owned()));
    let table = processes_from(Ok("PID NAME\n5 app\n".to_owned()));
    assert!(!needs_all_columns(&table));
    assert_eq!(table.unwrap()[&5], "app");
    assert!(needs_all_columns(&processes_from(Ok("PID NAME\n".to_owned()))));
    assert!(needs_all_columns(&processes_from(Err("x".to_owned()))));
}

#[test]
fn the_end_of_the_log_is_explained() {
    let error = || Some("broken".to_owned());
    assert_eq!(
        exit_report(None, ProcessEnd::Exited(Some(3))),
        (Some(3), None)
    );
    assert_eq!(
        exit_report(error(), ProcessEnd::Exited(None)),
        (None, error())
    );
    assert_eq!(
        exit_report(None, ProcessEnd::StillRunning(StopOutcome::Stopped(Some(9)))),
        (Some(9), Some("Logcat output ended unexpectedly".to_owned()))
    );
    assert_eq!(
        exit_report(
            error(),
            ProcessEnd::StillRunning(StopOutcome::WaitFailed("w".to_owned()))
        ),
        (None, Some("broken; failed to wait for ADB: w".to_owned()))
    );
    assert_eq!(
        exit_report(
            None,
            ProcessEnd::StillRunning(StopOutcome::KillFailed("k".to_owned()))
        ),
        (
            None,
            Some("Logcat output ended unexpectedly; failed to stop ADB: k".to_owned())
        )
    );
    assert_eq!(
        exit_report(error(), ProcessEnd::QueryFailed("q".to_owned())),
        (
            None,
            Some("failed to query ADB process status: q".to_owned())
        )
    );
    assert_eq!(
        exit_report(error(), ProcessEnd::LockPoisoned),
        (None, Some("adb process lock was poisoned".to_owned()))
    );
}

#[test]
fn raw_lines_are_decoded_and_parsed() {
    let entry = parse_raw_line(
        &parser(),
        b"08-29 15:42:10.123  1234  1260 E Tag: bad \xff byte",
    )
    .unwrap();
    assert_eq!(entry.level, Level::Error);
    assert_eq!(entry.message.as_ref(), "bad \u{FFFD} byte");
    assert!(parse_raw_line(&parser(), b" \t ").is_none());
    let marker = parse_raw_line(&parser(), b" unstructured ").unwrap();
    assert_eq!(marker.message.as_ref(), "unstructured");
    assert_eq!(marker.tag.as_ref(), "logcat");
}
