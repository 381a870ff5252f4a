//! Running the Android Debug Bridge: where it is looked for, what it is asked, and
//! what becomes of its replies.

use std::collections::HashMap;

use vstd::prelude::*;

use crate::adb::{parse_devices, parse_packages, parse_processes, DeviceInfo};
use crate::model::LogBuffer;
use crate::stream::decode_lossy;
use crate::text::{is_empty, split_chars, split_lines, strip_prefix, trim};
use crate::{adb, model, stream, text};

verus! {

// ---------------------------------------------------------------------------
// Finding the bridge
// ---------------------------------------------------------------------------

/// The environment variables that can lead to the bridge.
#[derive(Clone, Copy, Debug, Eq, PartialEq, Structural)]
pub enum AdbVariable {
    CiallogcatAdb,
    Adb,
    AndroidSdkRoot,
    AndroidHome,
    Home,
    LocalAppData,
}

impl AdbVariable {
    pub fn name(self) -> (r: &'static str)
        ensures
            r@ == (match self {
                AdbVariable::CiallogcatAdb => "CIALLOGCAT_ADB"@,
                AdbVariable::Adb => "ADB"@,
                AdbVariable::AndroidSdkRoot => "ANDROID_SDK_ROOT"@,
                AdbVariable::AndroidHome => "ANDROID_HOME"@,
                AdbVariable::Home => "HOME"@,
                AdbVariable::LocalAppData => "LOCALAPPDATA"@,
            }),
    {
        match self {
            AdbVariable::CiallogcatAdb => "CIALLOGCAT_ADB",
            AdbVariable::Adb => "ADB",
            AdbVariable::AndroidSdkRoot => "ANDROID_SDK_ROOT",
            AdbVariable::AndroidHome => "ANDROID_HOME",
            AdbVariable::Home => "HOME",
            AdbVariable::LocalAppData => "LOCALAPPDATA",
        }
    }
}

/// Where a candidate path begins.
#[derive(Clone, Copy, Debug, Eq, PartialEq, Structural)]
pub enum SearchRoot {
    Variable(AdbVariable),
    PathEntry(usize),
}

/// A path at which the bridge may be: what follows its root, part by part.
#[derive(Debug)]
pub struct AdbCandidate {
    pub root: SearchRoot,
    pub below: Vec<&'static str>,
}

/// Which variables are set, and how many directories the search path has.
#[derive(Clone, Copy, Debug)]
pub struct AdbEnvironment {
    pub ciallogcat_adb: bool,
    pub adb: bool,
    pub android_sdk_root: bool,
    pub android_home: bool,
    pub path_entries: usize,
    pub home: bool,
    pub local_app_data: bool,
}

/// The file name of the bridge.
pub open spec fn executable(windows: bool) -> Seq<char> {
    if windows {
        "adb.exe"@
    } else {
        "adb"@
    }
}

/// A candidate with its parts as texts.
pub open spec fn candidate_text(candidate: AdbCandidate) -> (SearchRoot, Seq<Seq<char>>) {
    (candidate.root, text::views(candidate.below@))
}

/// Candidates with their parts as texts.
pub open spec fn candidate_texts(candidates: Seq<AdbCandidate>) -> Seq<
    (SearchRoot, Seq<Seq<char>>),
> {
    candidates.map_values(|candidate: AdbCandidate| candidate_text(candidate))
}

/// A candidate below a variable, if it is set.
pub open spec fn below(set: bool, variable: AdbVariable, parts: Seq<Seq<char>>) -> Seq<
    (SearchRoot, Seq<Seq<char>>),
> {
    if set {
        seq![(SearchRoot::Variable(variable), parts)]
    } else {
        seq![]
    }
}

/// The paths in the order in which they are tried: those that name the bridge
/// itself, those below the SDK, the directories of the search path, and the places
/// where the SDK usually is.
pub open spec fn search_order(env: AdbEnvironment, windows: bool) -> Seq<
    (SearchRoot, Seq<Seq<char>>),
> {
    let file = executable(windows);
    let tools = seq!["platform-tools"@, file];
    let usual = seq!["Android"@, "Sdk"@, "platform-tools"@, file];
    below(env.ciallogcat_adb, AdbVariable::CiallogcatAdb, seq![]) + below(
        env.adb,
        AdbVariable::Adb,
        seq![],
    ) + below(env.android_sdk_root, AdbVariable::AndroidSdkRoot, tools) + below(
        env.android_home,
        AdbVariable::AndroidHome,
        tools,
    ) + Seq::new(
        env.path_entries as nat,
        |i: int| (SearchRoot::PathEntry(i as usize), seq![file]),
    ) + below(env.home, AdbVariable::Home, usual) + below(
        env.local_app_data,
        AdbVariable::LocalAppData,
        usual,
    )
}

/// The file name of the bridge.
pub fn adb_executable_name(windows: bool) -> (r: &'static str)
    ensures
        r@ == executable(windows),
{
    if windows {
        "adb.exe"
    } else {
        "adb"
    }
}

/// Adds a candidate below a variable, if it is set.
fn add_below(
    out: &mut Vec<AdbCandidate>,
    set: bool,
    variable: AdbVariable,
    parts: Vec<&'static str>,
)
    ensures
        candidate_texts(final(out)@) == candidate_texts(old(out)@) + below(
            set,
            variable,
            text::views(parts@),
        ),
{
    let ghost before = out@;
    if set {
        let candidate = AdbCandidate { root: SearchRoot::Variable(variable), below: parts };
        proof {
            assert(candidate_texts(before.push(candidate)) =~= candidate_texts(before).push(
                candidate_text(candidate),
            ));
        }
        out.push(candidate);
        assert(candidate_texts(out@) =~= candidate_texts(before) + below(
            set,
            variable,
            text::views(parts@),
        ));
    } else {
        assert(candidate_texts(out@) =~= candidate_texts(before) + below(
            set,
            variable,
            text::views(parts@),
        ));
    }
}

/// The paths at which the bridge may be, in the order in which they are tried.
pub fn adb_candidates(env: AdbEnvironment, windows: bool) -> (r: Vec<AdbCandidate>)
    ensures
        candidate_texts(r@) == search_order(env, windows),
{
    let file = adb_executable_name(windows);
    let mut out: Vec<AdbCandidate> = Vec::new();
    let none: Vec<&'static str> = Vec::new();
    let nothing: Vec<&'static str> = Vec::new();
    let root_tools: Vec<&'static str> = vec!["platform-tools", file];
    let home_tools: Vec<&'static str> = vec!["platform-tools", file];
    let usual: Vec<&'static str> = vec!["Android", "Sdk", "platform-tools", file];
    let local: Vec<&'static str> = vec!["Android", "Sdk", "platform-tools", file];
    proof {
        assert(text::views(none@) =~= seq![]);
        assert(text::views(nothing@) =~= seq![]);
        assert(text::views(root_tools@) =~= seq!["platform-tools"@, executable(windows)]);
        assert(text::views(home_tools@) =~= seq!["platform-tools"@, executable(windows)]);
        assert(text::views(usual@) =~= seq![
            "Android"@,
            "Sdk"@,
            "platform-tools"@,
            executable(windows),
        ]);
        assert(text::views(local@) =~= seq![
            "Android"@,
            "Sdk"@,
            "platform-tools"@,
            executable(windows),
        ]);
        assert(candidate_texts(out@) =~= seq![]);
    }
    add_below(&mut out, env.ciallogcat_adb, AdbVariable::CiallogcatAdb, none);
    add_below(&mut out, env.adb, AdbVariable::Adb, nothing);
    add_below(&mut out, env.android_sdk_root, AdbVariable::AndroidSdkRoot, root_tools);
    add_below(&mut out, env.android_home, AdbVariable::AndroidHome, home_tools);
    let ghost named = candidate_texts(out@);
    let ghost on_path = |i: int| (SearchRoot::PathEntry(i as usize), seq![executable(windows)]);
    let mut i: usize = 0;
    proof {
        assert(named + Seq::new(0, on_path) =~= named);
    }
    while i < env.path_entries
        invariant
            i <= env.path_entries,
            file@ == executable(windows),
            on_path == (|i: int| (SearchRoot::PathEntry(i as usize), seq![executable(windows)])),
            candidate_texts(out@) == named + Seq::new(i as nat, on_path),
        decreases env.path_entries - i,
    {
        let parts: Vec<&'static str> = vec![file];
        let ghost before = out@;
        let candidate = AdbCandidate { root: SearchRoot::PathEntry(i), below: parts };
        proof {
            assert(text::views(parts@) =~= seq![executable(windows)]);
            assert(candidate_texts(before.push(candidate)) =~= candidate_texts(before).push(
                candidate_text(candidate),
            ));
            assert(Seq::new((i + 1) as nat, on_path) =~= Seq::new(i as nat, on_path).push(
                on_path(i as int),
            ));
            assert(named + Seq::new((i + 1) as nat, on_path) =~= (named + Seq::new(
                i as nat,
                on_path,
            )).push(on_path(i as int)));
        }
        out.push(candidate);
        i += 1;
    }
    add_below(&mut out, env.home, AdbVariable::Home, usual);
    add_below(&mut out, env.local_app_data, AdbVariable::LocalAppData, local);
    assert(candidate_texts(out@) =~= search_order(env, windows));
    out
}

/// The path that a line of a launcher's settings names.
pub open spec fn target_on(line: Seq<char>) -> Option<Seq<char>> {
    let t = text::trimmed(line);
    let rest = t.skip("path = \""@.len() as int);
    if text::begins_with(t, "path = \""@) && rest.len() > 0 && rest.last() == '"' {
        Some(rest.drop_last())
    } else {
        None
    }
}

/// The first path that lines of a launcher's settings name.
pub open spec fn target_in(lines: Seq<Seq<char>>) -> Option<Seq<char>>
    decreases lines.len(),
{
    if lines.len() == 0 {
        None
    } else {
        match target_on(lines[0]) {
            Some(path) => Some(path),
            None => target_in(lines.drop_first()),
        }
    }
}

/// The path that a line of a launcher's settings names.
fn parse_target(line: &str) -> (r: Option<&str>)
    ensures
        match r {
            Some(path) => target_on(line@) == Some(path@),
            None => target_on(line@) is None,
        },
{
    match strip_prefix(trim(line), "path = \"") {
        None => None,
        Some(rest) => {
            let n: usize = rest.unicode_len();
            if n == 0 {
                return None;
            }
            let (path, last) = split_chars(rest, n - 1);
            let quoted = crate::text::equal(last, "\"");
            proof {
                reveal_strlit("\"");
                assert(last@ =~= seq![rest@.last()]);
                assert(path@ =~= rest@.drop_last());
                if quoted {
                    assert(last@[0] == '"');
                } else if rest@.last() == '"' {
                    assert(last@ =~= "\""@);
                }
            }
            if quoted {
                Some(path)
            } else {
                None
            }
        },
    }
}

/// The executable behind a launcher, from the launcher's settings.
pub fn parse_scoop_shim_target(config: &str) -> (r: Option<String>)
    ensures
        match r {
            Some(path) => target_in(text::lines(config@)) == Some(path@),
            None => target_in(text::lines(config@)) is None,
        },
{
    let lines = split_lines(config);
    let ghost all = text::views(lines@);
    let mut i: usize = 0;
    proof {
        assert(all.skip(0) =~= all);
    }
    while i < lines.len()
        invariant
            i <= lines@.len(),
            all == text::views(lines@),
            all == text::lines(config@),
            target_in(all) == target_in(all.skip(i as int)),
        decreases lines@.len() - i,
    {
        proof {
            assert(all.skip(i as int)[0] == lines@[i as int]@);
            assert(all.skip(i as int).drop_first() =~= all.skip(i + 1));
        }
        if let Some(path) = parse_target(lines[i]) {
            return Some(path.to_owned());
        }
        i += 1;
    }
    None
}

// ---------------------------------------------------------------------------
// Questions
// ---------------------------------------------------------------------------

/// The buffer arguments of a choice of buffers.
pub open spec fn buffer_args(buffers: Seq<LogBuffer>) -> Seq<Seq<char>>
    decreases buffers.len(),
{
    if buffers.len() == 0 {
        seq![]
    } else {
        buffer_args(buffers.drop_last()).push("-b"@).push(model::buffer_name(buffers.last()))
    }
}

/// The arguments that start the log of a device: in full format, from the latest
/// line on, and each buffer by its name.
pub open spec fn logcat_command(serial: Seq<char>, buffers: Seq<LogBuffer>) -> Seq<Seq<char>> {
    seq!["-s"@, serial, "logcat"@, "-v"@, "threadtime"@, "-T"@, "1"@] + buffer_args(
        model::normalized(buffers),
    )
}

/// Owned arguments.
fn owned(parts: Vec<&str>) -> (r: Vec<String>)
    ensures
        text::texts(r@) == text::views(parts@),
{
    let mut out: Vec<String> = Vec::new();
    let mut i: usize = 0;
    while i < parts.len()
        invariant
            i <= parts@.len(),
            text::texts(out@) == text::views(parts@).take(i as int),
        decreases parts@.len() - i,
    {
        let ghost before = out@;
        let part = parts[i].to_owned();
        proof {
            assert(text::texts(before.push(part)) =~= text::texts(before).push(part@));
            assert(text::views(parts@).take(i + 1) =~= text::views(parts@).take(i as int).push(
                part@,
            ));
        }
        out.push(part);
        i += 1;
    }
    assert(text::views(parts@).take(i as int) =~= text::views(parts@));
    out
}

/// The arguments that start the log of a device.
pub fn logcat_args(serial: &str, buffers: &[LogBuffer]) -> (r: Vec<String>)
    ensures
        text::texts(r@) == logcat_command(serial@, buffers@),
{
    let mut chosen: Vec<LogBuffer> = Vec::new();
    chosen.extend_from_slice(buffers);
    assert(chosen@ =~= buffers@);
    LogBuffer::normalize(&mut chosen);
    let mut args = owned(vec!["-s", serial, "logcat", "-v", "threadtime", "-T", "1"]);
    let ghost fixed = seq!["-s"@, serial@, "logcat"@, "-v"@, "threadtime"@, "-T"@, "1"@];
    let mut i: usize = 0;
    proof {
        assert(text::texts(args@) =~= fixed);
        assert(chosen@.take(0) =~= seq![]);
        assert(fixed + buffer_args(chosen@.take(0)) =~= fixed);
    }
    while i < chosen.len()
        invariant
            i <= chosen@.len(),
            text::texts(args@) == fixed + buffer_args(chosen@.take(i as int)),
        decreases chosen@.len() - i,
    {
        let ghost before = args@;
        let flag = "-b".to_owned();
        let name = chosen[i].name().to_owned();
        proof {
            let longer = chosen@.take(i + 1);
            assert(longer.drop_last() =~= chosen@.take(i as int));
            assert(text::texts(before.push(flag).push(name)) =~= text::texts(before).push(
                flag@,
            ).push(name@));
            assert(fixed + buffer_args(longer) =~= (fixed + buffer_args(
                chosen@.take(i as int),
            )).push(flag@).push(name@));
        }
        args.push(flag);
        args.push(name);
        i += 1;
    }
    assert(chosen@.take(i as int) =~= chosen@);
    args
}

/// The arguments that list the devices.
pub fn device_query_args() -> (r: Vec<String>)
    ensures
        text::texts(r@) == seq!["devices"@, "-l"@],
{
    let r = owned(vec!["devices", "-l"]);
    assert(text::texts(r@) =~= seq!["devices"@, "-l"@]);
    r
}

/// The arguments that list the packages that the user installed on a device.
pub fn package_query_args(serial: &str) -> (r: Vec<String>)
    ensures
        text::texts(r@) == seq![
            "-s"@,
            serial@,
            "shell"@,
            "pm"@,
            "list"@,
            "packages"@,
            "-3"@,
        ],
{
    let r = owned(vec!["-s", serial, "shell", "pm", "list", "packages", "-3"]);
    assert(text::texts(r@) =~= seq![
        "-s"@,
        serial@,
        "shell"@,
        "pm"@,
        "list"@,
        "packages"@,
        "-3"@,
    ]);
    r
}

/// The arguments that list the processes of a device: first by the two columns
/// that are needed, and with all columns where that gives nothing.
pub fn process_query_args(serial: &str, all_columns: bool) -> (r: Vec<String>)
    ensures
        text::texts(r@) == seq!["-s"@, serial@, "shell"@, "ps"@, "-A"@] + if all_columns {
            seq![]
        } else {
            seq!["-o"@, "PID,NAME"@]
        },
{
    if all_columns {
        let r = owned(vec!["-s", serial, "shell", "ps", "-A"]);
        assert(text::texts(r@) =~= seq!["-s"@, serial@, "shell"@, "ps"@, "-A"@] + seq![]);
        r
    } else {
        let r = owned(vec!["-s", serial, "shell", "ps", "-A", "-o", "PID,NAME"]);
        assert(text::texts(r@) =~= seq!["-s"@, serial@, "shell"@, "ps"@, "-A"@] + seq![
            "-o"@,
            "PID,NAME"@,
        ]);
        r
    }
}

// ---------------------------------------------------------------------------
// Replies
// ---------------------------------------------------------------------------

/// Two texts with a colon between them.
pub fn labelled(label: &str, detail: &str) -> (r: String)
    ensures
        r@ == label@ + ": "@ + detail@,
{
    let mut text = label.to_owned();
    text.append(": ");
    text.append(detail);
    text
}

/// What a finished run of the bridge comes to: its output, or what it printed
/// about its failure, or else how it ended.
pub fn adb_reply(success: bool, status: &str, stdout: &[u8], stderr: &[u8]) -> (r: Result<
    String,
    String,
>)
    ensures
        success ==> (r matches Ok(output) && output@ == stream::lossy_text(stdout@)),
        !success ==> (r matches Err(message) && message@ == ({
            let printed = text::trimmed(stream::lossy_text(stderr@));
            if printed.len() == 0 {
                "adb exited with "@ + status@
            } else {
                printed
            }
        })),
{
    if success {
        return Ok(decode_lossy(stdout));
    }
    let printed = decode_lossy(stderr);
    let message = trim(printed.as_str());
    if is_empty(message) {
        let mut text = "adb exited with ".to_owned();
        text.append(status);
        Err(text)
    } else {
        Err(message.to_owned())
    }
}

/// The devices that a reply lists.
pub fn devices_from(reply: Result<String, String>) -> (r: Result<Vec<DeviceInfo>, String>)
    ensures
        match reply {
            Ok(output) => r matches Ok(devices) && adb::device_texts(devices@) == adb::devices_on(
                text::lines(output@),
            ),
            Err(message) => r == Err::<Vec<DeviceInfo>, String>(message),
        },
{
    match reply {
        Ok(output) => Ok(parse_devices(output.as_str())),
        Err(message) => Err(message),
    }
}

/// The packages that a reply lists.
pub fn packages_from(reply: Result<String, String>) -> (r: Result<Vec<String>, String>)
    ensures
        match reply {
            Ok(output) => r matches Ok(packages) && adb::ordered(text::texts(packages@))
                && text::texts(packages@).to_set() == adb::packages_on(text::lines(output@)),
            Err(message) => r == Err::<Vec<String>, String>(message),
        },
{
    match reply {
        Ok(output) => Ok(parse_packages(output.as_str())),
        Err(message) => Err(message),
    }
}

/// The processes that a reply lists.
pub fn processes_from(reply: Result<String, String>) -> (r: Result<HashMap<u32, String>, String>)
    ensures
        match reply {
            Ok(output) => r matches Ok(table) && adb::table_texts(table@) == adb::process_table(
                text::lines(output@),
            ),
            Err(message) => r == Err::<HashMap<u32, String>, String>(message),
        },
{
    match reply {
        Ok(output) => Ok(parse_processes(output.as_str())),
        Err(message) => Err(message),
    }
}

/// Whether the processes have to be asked for once more with all columns.
pub fn needs_all_columns(first: &Result<HashMap<u32, String>, String>) -> (r: bool)
    ensures
        r == (match *first {
            Ok(table) => table@.is_empty(),
            Err(_) => true,
        }),
{
    match first {
        Ok(table) => {
            let empty = table.len() == 0;
            assert(table@.dom().len() == 0 <==> table@.is_empty()) by {
                if table@.dom().len() == 0 {
                    assert(table@.dom() =~= Set::empty());
                }
            }
            empty
        },
        Err(_) => true,
    }
}

// ---------------------------------------------------------------------------
// The end of the log
// ---------------------------------------------------------------------------

/// What came of stopping a bridge that was still running.
#[derive(Debug)]
pub enum StopOutcome {
    Stopped(Option<i32>),
    WaitFailed(String),
    KillFailed(String),
}

/// How the process behind the log was found when its output ended.
#[derive(Debug)]
pub enum ProcessEnd {
    Exited(Option<i32>),
    StillRunning(StopOutcome),
    QueryFailed(String),
    LockPoisoned,
}

/// The exit code and the message at the end of the log.
pub open spec fn exit_text(
    stream_error: Option<Seq<char>>,
    end: ProcessEnd,
) -> (Option<i32>, Option<Seq<char>>) {
    let reason = match stream_error {
        Some(error) => error,
        None => "Logcat output ended unexpectedly"@,
    };
    match end {
        ProcessEnd::Exited(code) => (code, stream_error),
        ProcessEnd::StillRunning(StopOutcome::Stopped(code)) => (code, Some(reason)),
        ProcessEnd::StillRunning(StopOutcome::WaitFailed(error)) => (
            None,
            Some(reason + "; failed to wait for ADB"@ + ": "@ + error@),
        ),
        ProcessEnd::StillRunning(StopOutcome::KillFailed(error)) => (
            None,
            Some(reason + "; failed to stop ADB"@ + ": "@ + error@),
        ),
        ProcessEnd::QueryFailed(error) => (
            None,
            Some("failed to query ADB process status"@ + ": "@ + error@),
        ),
        ProcessEnd::LockPoisoned => (None, Some("adb process lock was poisoned"@)),
    }
}

/// The text of an optional string.
pub open spec fn optional_text(s: Option<String>) -> Option<Seq<char>> {
    match s {
        Some(s) => Some(s@),
        None => None,
    }
}

/// The exit code and the message at the end of the log.
pub fn exit_report(stream_error: Option<String>, end: ProcessEnd) -> (r: (
    Option<i32>,
    Option<String>,
))
    ensures
        (r.0, optional_text(r.1)) == exit_text(optional_text(stream_error), end),
{
    match end {
        ProcessEnd::Exited(code) => (code, stream_error),
        ProcessEnd::StillRunning(outcome) => {
            let reason = match stream_error {
                Some(error) => error,
                None => "Logcat output ended unexpectedly".to_owned(),
            };
            match outcome {
                StopOutcome::Stopped(code) => (code, Some(reason)),
                StopOutcome::WaitFailed(error) => {
                    let mut label = reason;
                    label.append("; failed to wait for ADB");
                    (None, Some(labelled(label.as_str(), error.as_str())))
                },
                StopOutcome::KillFailed(error) => {
                    let mut label = reason;
                    label.append("; failed to stop ADB");
                    (None, Some(labelled(label.as_str(), error.as_str())))
                },
            }
        },
        ProcessEnd::QueryFailed(error) => (
            None,
            Some(labelled("failed to query ADB process status", error.as_str())),
        ),
        ProcessEnd::LockPoisoned => (None, Some("adb process lock was poisoned".to_owned())),
    }
}

// ---------------------------------------------------------------------------
// What holds of every search and every question
// ---------------------------------------------------------------------------

/// The parts of the search in their order, as far as they are there.
proof fn lemma_parts_of_the_search<T>(
    a: Seq<T>,
    b: Seq<T>,
    c: Seq<T>,
    d: Seq<T>,
    e: Seq<T>,
    f: Seq<T>,
    g: Seq<T>,
    none: Seq<T>,
)
    requires
        none.len() == 0,
    ensures
        a + b + c + d + e + f + g == a + (none + b + c + d + e + f + g),
        none + b + c + d + e + f + g == b + (none + none + c + d + e + f + g),
        none + none + c + d + e + f + g == c + (none + none + none + d + e + f + g),
        none + none + none + d + e + f + g == d + (none + none + none + none + e + f + g),
        a + b + c + d + e + f + g == (a + b + c + d + e + f + none) + g,
        a + b + c + d + e + f + none == (a + b + c + d + e + none + none) + f,
        none + none + none + none + e + none + none == e,
{
    assert(a + b + c + d + e + f + g =~= a + (none + b + c + d + e + f + g));
    assert(none + b + c + d + e + f + g =~= b + (none + none + c + d + e + f + g));
    assert(none + none + c + d + e + f + g =~= c + (none + none + none + d + e + f + g));
    assert(none + none + none + d + e + f + g =~= d + (none + none + none + none + e + f + g));
    assert(a + b + c + d + e + f + g =~= (a + b + c + d + e + f + none) + g);
    assert(a + b + c + d + e + f + none =~= (a + b + c + d + e + none + none) + f);
    assert(none + none + none + none + e + none + none =~= e);
}

/// The same for the search in an environment.
proof fn lemma_search_parts(env: AdbEnvironment, windows: bool)
    ensures
        ({
            let file = executable(windows);
            let tools = seq!["platform-tools"@, file];
            let usual = seq!["Android"@, "Sdk"@, "platform-tools"@, file];
            let all = search_order(env, windows);
            let a = below(env.ciallogcat_adb, AdbVariable::CiallogcatAdb, seq![]);
            let b = below(env.adb, AdbVariable::Adb, seq![]);
            let c = below(env.android_sdk_root, AdbVariable::AndroidSdkRoot, tools);
            let d = below(env.android_home, AdbVariable::AndroidHome, tools);
            let f = below(env.home, AdbVariable::Home, usual);
            let g = below(env.local_app_data, AdbVariable::LocalAppData, usual);
            let b_on = AdbEnvironment { ciallogcat_adb: false, ..env };
            let c_on = AdbEnvironment { adb: false, ..b_on };
            let d_on = AdbEnvironment { android_sdk_root: false, ..c_on };
            let e_on = AdbEnvironment { android_home: false, ..d_on };
            let to_f = AdbEnvironment { local_app_data: false, ..env };
            let to_e = AdbEnvironment { home: false, ..to_f };
            let path = AdbEnvironment { home: false, local_app_data: false, ..e_on };
            &&& all == a + search_order(b_on, windows)
            &&& search_order(b_on, windows) == b + search_order(c_on, windows)
            &&& search_order(c_on, windows) == c + search_order(d_on, windows)
            &&& search_order(d_on, windows) == d + search_order(e_on, windows)
            &&& all == search_order(to_f, windows) + g
            &&& search_order(to_f, windows) == search_order(to_e, windows) + f
            &&& search_order(path, windows) == Seq::new(
                env.path_entries as nat,
                |i: int| (SearchRoot::PathEntry(i as usize), seq![file]),
            )
        }),
{
    let file = executable(windows);
    let tools = seq!["platform-tools"@, file];
    let usual = seq!["Android"@, "Sdk"@, "platform-tools"@, file];
    let a = below(env.ciallogcat_adb, AdbVariable::CiallogcatAdb, seq![]);
    let b = below(env.adb, AdbVariable::Adb, seq![]);
    let c = below(env.android_sdk_root, AdbVariable::AndroidSdkRoot, tools);
    let d = below(env.android_home, AdbVariable::AndroidHome, tools);
    let e = Seq::new(
        env.path_entries as nat,
        |i: int| (SearchRoot::PathEntry(i as usize), seq![file]),
    );
    let f = below(env.home, AdbVariable::Home, usual);
    let g = below(env.local_app_data, AdbVariable::LocalAppData, usual);
    lemma_parts_of_the_search(a, b, c, d, e, f, g, seq![]);
}

/// The order of the search, told by what each variable adds to it. The variables that
/// name the bridge come first, then those of the SDK, then the directories of the search
/// path, and last the usual places.
pub proof fn lemma_search_order(env: AdbEnvironment, windows: bool, i: int)
    ensures
        ({
            let all = search_order(env, windows);
            let file = if windows {
                "adb.exe"@
            } else {
                "adb"@
            };
            let tools = seq!["platform-tools"@, file];
            let usual = seq!["Android"@, "Sdk"@, "platform-tools"@, file];
            let named = |variable: AdbVariable, parts: Seq<Seq<char>>|
                seq![(SearchRoot::Variable(variable), parts)];
            let later = AdbEnvironment { ciallogcat_adb: false, ..env };
            let sdk = AdbEnvironment { ciallogcat_adb: false, adb: false, ..env };
            let home = AdbEnvironment { android_sdk_root: false, ..sdk };
            let path = AdbEnvironment { android_home: false, ..home };
            let sooner = AdbEnvironment { local_app_data: false, ..env };
            &&& env.ciallogcat_adb ==> all == named(AdbVariable::CiallogcatAdb, seq![])
                + search_order(later, windows)
            &&& env.adb ==> search_order(later, windows) == named(AdbVariable::Adb, seq![])
                + search_order(sdk, windows)
            &&& env.android_sdk_root ==> search_order(sdk, windows) == named(
                AdbVariable::AndroidSdkRoot,
                tools,
            ) + search_order(home, windows)
            &&& env.android_home ==> search_order(home, windows) == named(
                AdbVariable::AndroidHome,
                tools,
            ) + search_order(path, windows)
            &&& env.local_app_data ==> all == search_order(sooner, windows) + named(
                AdbVariable::LocalAppData,
                usual,
            )
            &&& env.home ==> search_order(sooner, windows) == search_order(
                AdbEnvironment { home: false, ..sooner },
                windows,
            ) + named(AdbVariable::Home, usual)
            &&& !env.home && !env.local_app_data ==> {
                &&& search_order(path, windows).len() == env.path_entries
                &&& 0 <= i < env.path_entries ==> search_order(path, windows)[i] == (
                    SearchRoot::PathEntry(i as usize),
                    seq![file],
                )
            }
        }),
{
    lemma_search_parts(env, windows);
}

/// A line of a launcher's settings with a path in quotation marks names that path, and
/// the first such line counts.
pub proof fn lemma_target_line(
    lead: Seq<char>,
    path: Seq<char>,
    end: Seq<char>,
    others: Seq<Seq<char>>,
    more: Seq<Seq<char>>,
)
    requires
        text::blank(lead),
        text::blank(end),
        forall|i: int| 0 <= i < others.len() ==> target_on(#[trigger] others[i]) is None,
    ensures
        ({
            let line = lead + ("path = \""@ + path + seq!['"']) + end;
            &&& target_on(line) == Some(path)
            &&& target_in(others) is None
            &&& target_in(others + seq![line] + more) == Some(path)
        }),
    decreases others.len(),
{
    reveal_strlit("path = \"");
    let label = "path = \""@;
    let core = label + path + seq!['"'];
    let line = lead + core + end;
    let n = label.len() as int;
    assert(core[0] == 'p');
    assert(core.last() == '"');
    text::lemma_trim_takes_the_ends(lead, core, end);
    assert(core.take(n) =~= label);
    assert(core.skip(n) =~= path + seq!['"']);
    assert((path + seq!['"']).drop_last() =~= path);
    let all = others + seq![line] + more;
    if others.len() == 0 {
        assert(all[0] == line);
    } else {
        let rest = others.drop_first();
        assert(target_on(others[0]) is None);
        assert forall|i: int| 0 <= i < rest.len() implies target_on(#[trigger] rest[i]) is None by {
            assert(rest[i] == others[i + 1]);
        }
        lemma_target_line(lead, path, end, rest, more);
        assert(all[0] == others[0]);
        assert(all.drop_first() =~= rest + seq![line] + more);
    }
}

/// A line that does not begin with the label, or has no closing quotation mark, names no
/// path.
pub proof fn lemma_no_target_line(line: Seq<char>)
    ensures
        !text::begins_with(text::trimmed(line), "path = \""@) ==> target_on(line) is None,
        text::trimmed(line).len() > 0 && text::trimmed(line).last() != '"' ==> target_on(line)
            is None,
{
    reveal_strlit("path = \"");
    let t = text::trimmed(line);
    let rest = t.skip(8);
    if text::begins_with(t, "path = \""@) && rest.len() > 0 {
        assert(rest.last() == t.last());
    }
}

/// The log of a device is asked for in full format, from the latest line on, and each
/// chosen buffer by its name, in their order.
pub proof fn lemma_logcat_arguments(serial: Seq<char>, buffers: Seq<LogBuffer>, i: int)
    ensures
        ({
            let args = logcat_command(serial, buffers);
            let chosen = model::normalized(buffers);
            &&& args.len() == 7 + 2 * chosen.len()
            &&& args.take(7) == seq![
                "-s"@,
                serial,
                "logcat"@,
                "-v"@,
                "threadtime"@,
                "-T"@,
                "1"@,
            ]
            &&& 0 <= i < chosen.len() ==> args[7 + 2 * i] == "-b"@ && args[8 + 2 * i]
                == model::buffer_name(chosen[i])
        }),
{
    let chosen = model::normalized(buffers);
    lemma_buffer_arguments(chosen, i);
    assert(logcat_command(serial, buffers).take(7) =~= seq![
        "-s"@,
        serial,
        "logcat"@,
        "-v"@,
        "threadtime"@,
        "-T"@,
        "1"@,
    ]);
}

/// The arguments of buffers stand in pairs.
proof fn lemma_buffer_arguments(buffers: Seq<LogBuffer>, i: int)
    ensures
        buffer_args(buffers).len() == 2 * buffers.len(),
        0 <= i < buffers.len() ==> buffer_args(buffers)[2 * i] == "-b"@ && buffer_args(
            buffers,
        )[2 * i + 1] == model::buffer_name(buffers[i]),
    decreases buffers.len(),
{
    if buffers.len() > 0 {
        lemma_buffer_arguments(buffers.drop_last(), i);
    }
}

/// The end of the log: an exit code is told exactly where the process was seen to end.
/// Where it ended by itself, only a fault of the stream is told; where it had to be
/// stopped there is always a message, which begins with the fault of the stream if there
/// was one, and ends with what went wrong.
pub proof fn lemma_end_of_the_log(fault: Option<Seq<char>>, code: Option<i32>, error: String)
    ensures
        exit_text(fault, ProcessEnd::Exited(code)) == (code, fault),
        exit_text(fault, ProcessEnd::StillRunning(StopOutcome::Stopped(code))).0 == code,
        exit_text(fault, ProcessEnd::StillRunning(StopOutcome::WaitFailed(error))).0 is None,
        exit_text(fault, ProcessEnd::StillRunning(StopOutcome::KillFailed(error))).0 is None,
        exit_text(fault, ProcessEnd::QueryFailed(error)).0 is None,
        exit_text(fault, ProcessEnd::LockPoisoned).0 is None,
        ({
            let stopped = exit_text(fault, ProcessEnd::StillRunning(StopOutcome::Stopped(code))).1;
            let unwaited = exit_text(
                fault,
                ProcessEnd::StillRunning(StopOutcome::WaitFailed(error)),
            ).1;
            let unkilled = exit_text(
                fault,
                ProcessEnd::StillRunning(StopOutcome::KillFailed(error)),
            ).1;
            let reason = if fault is Some {
                fault->0
            } else {
                "Logcat output ended unexpectedly"@
            };
            &&& stopped == Some(reason)
            &&& unwaited == Some(reason + "; failed to wait for ADB: "@ + error@)
            &&& unkilled == Some(reason + "; failed to stop ADB: "@ + error@)
        }),
        exit_text(fault, ProcessEnd::QueryFailed(error)).1 == Some(
            "failed to query ADB process status: "@ + error@,
        ),
        exit_text(fault, ProcessEnd::LockPoisoned).1 is Some,
{
    reveal_strlit("; failed to wait for ADB");
    reveal_strlit("; failed to stop ADB");
    reveal_strlit("failed to query ADB process status");
    reveal_strlit(": ");
    reveal_strlit("; failed to wait for ADB: ");
    reveal_strlit("; failed to stop ADB: ");
    reveal_strlit("failed to query ADB process status: ");
    let reason = if fault is Some {
        fault->0
    } else {
        "Logcat output ended unexpectedly"@
    };
    assert(reason + "; failed to wait for ADB"@ + ": "@ + error@ =~= reason
        + "; failed to wait for ADB: "@ + error@);
    assert(reason + "; failed to stop ADB"@ + ": "@ + error@ =~= reason
        + "; failed to stop ADB: "@ + error@);
    assert("failed to query ADB process status"@ + ": "@ + error@
        =~= "failed to query ADB process status: "@ + error@);
}

} // verus!
