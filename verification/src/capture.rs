//! The capture of a device's log: which device is chosen, whether its log is read,
//! and what is asked of the bridge meanwhile.

use vstd::prelude::*;

use crate::adb::DeviceInfo;
use crate::model::{LogBuffer, Rgb};
use crate::render::signed_decimal;
use crate::text::equal;
use crate::{adb, model, text};

verus! {

/// What the capture is doing.
#[derive(Debug)]
pub enum CaptureState {
    NoAdb,
    WaitingForDevice,
    Connecting,
    Running,
    Paused,
    Error(String),
}

/// What the capture is doing, with the message as a text.
pub enum CapturePhase {
    NoAdb,
    WaitingForDevice,
    Connecting,
    Running,
    Paused,
    Error(Seq<char>),
}

impl CaptureState {
    pub open spec fn phase(self) -> CapturePhase {
        match self {
            CaptureState::NoAdb => CapturePhase::NoAdb,
            CaptureState::WaitingForDevice => CapturePhase::WaitingForDevice,
            CaptureState::Connecting => CapturePhase::Connecting,
            CaptureState::Running => CapturePhase::Running,
            CaptureState::Paused => CapturePhase::Paused,
            CaptureState::Error(message) => CapturePhase::Error(message@),
        }
    }

    pub fn label(&self) -> (r: &str)
        ensures
            r@ == (match *self {
                CaptureState::NoAdb => "未找到 ADB"@,
                CaptureState::WaitingForDevice => "未选择设备"@,
                CaptureState::Connecting => "正在启动 Logcat"@,
                CaptureState::Running => "实时 Logcat"@,
                CaptureState::Paused => "已暂停采集"@,
                CaptureState::Error(message) => message@,
            }),
    {
        match self {
            CaptureState::NoAdb => "未找到 ADB",
            CaptureState::WaitingForDevice => "未选择设备",
            CaptureState::Connecting => "正在启动 Logcat",
            CaptureState::Running => "实时 Logcat",
            CaptureState::Paused => "已暂停采集",
            CaptureState::Error(message) => message.as_str(),
        }
    }

    pub fn color(&self) -> (r: Rgb)
        ensures
            r == (match *self {
                CaptureState::Running => model::rgb(76, 194, 126),
                CaptureState::Connecting | CaptureState::Paused => model::rgb(239, 190, 82),
                CaptureState::Error(_) | CaptureState::NoAdb => model::rgb(235, 91, 101),
                CaptureState::WaitingForDevice => model::rgb(142, 151, 166),
            }),
    {
        let (red, green, blue): (u8, u8, u8) = match self {
            CaptureState::Running => (76, 194, 126),
            CaptureState::Connecting => (239, 190, 82),
            CaptureState::Error(_) => (235, 91, 101),
            CaptureState::NoAdb => (235, 91, 101),
            CaptureState::WaitingForDevice => (142, 151, 166),
            CaptureState::Paused => (239, 190, 82),
        };
        Rgb { red, green, blue }
    }
}

/// What is to be done outside.
#[derive(Debug)]
pub enum Command {
    StopLogcat,
    StartLogcat { session_id: u64, serial: String, buffers: Vec<LogBuffer> },
    QueryDevices,
    QueryPackages { serial: String },
    QueryProcesses { serial: String },
    ResetProcessClock,
}

/// What is to be done outside, in texts.
pub enum Order {
    StopLogcat,
    StartLogcat { session_id: int, serial: Seq<char>, buffers: Seq<LogBuffer> },
    QueryDevices,
    QueryPackages { serial: Seq<char> },
    QueryProcesses { serial: Seq<char> },
    ResetProcessClock,
}

impl Command {
    pub open spec fn order(self) -> Order {
        match self {
            Command::StopLogcat => Order::StopLogcat,
            Command::StartLogcat { session_id, serial, buffers } => Order::StartLogcat {
                session_id: session_id as int,
                serial: serial@,
                buffers: buffers@,
            },
            Command::QueryDevices => Order::QueryDevices,
            Command::QueryPackages { serial } => Order::QueryPackages { serial: serial@ },
            Command::QueryProcesses { serial } => Order::QueryProcesses { serial: serial@ },
            Command::ResetProcessClock => Order::ResetProcessClock,
        }
    }
}

/// Commands in texts.
pub open spec fn orders(commands: Seq<Command>) -> Seq<Order> {
    commands.map_values(|command: Command| command.order())
}

/// The capture.
pub struct Capture {
    pub adb_available: bool,
    pub adb_status: String,
    pub devices: Vec<DeviceInfo>,
    pub selected_device: Option<String>,
    pub device_query_pending: bool,
    pub package_query_pending: bool,
    pub process_query_pending: bool,
    pub capturing: bool,
    pub session_id: u64,
    pub state: CaptureState,
    pub last_error: Option<String>,
    pub packages: Vec<String>,
    pub buffers: Vec<LogBuffer>,
    pub buffer_draft: Vec<LogBuffer>,
}

/// The capture in texts.
#[verifier::ext_equal]
pub struct CaptureModel {
    pub adb_available: bool,
    pub adb_status: Seq<char>,
    pub devices: Seq<adb::DeviceText>,
    pub selected: Option<Seq<char>>,
    pub device_query_pending: bool,
    pub package_query_pending: bool,
    pub process_query_pending: bool,
    pub capturing: bool,
    pub session_id: int,
    pub phase: CapturePhase,
    pub last_error: Option<Seq<char>>,
    pub packages: Seq<Seq<char>>,
    pub buffers: Seq<LogBuffer>,
    pub draft: Seq<LogBuffer>,
}

/// A new state of the capture, with what is to be done.
pub type Step = (CaptureModel, Seq<Order>);

/// The text of an optional string.
pub open spec fn optional(s: Option<String>) -> Option<Seq<char>> {
    match s {
        Some(s) => Some(s@),
        None => None,
    }
}

impl CaptureModel {
    /// Whether the chosen device is connected and can be used.
    pub open spec fn device_available(self) -> bool {
        self.selected matches Some(serial) && exists|i: int|
            0 <= i < self.devices.len() && (#[trigger] self.devices[i]).serial == serial
                && self.devices[i].state == "device"@
    }

    /// What the capture does without a device.
    pub open spec fn idle_phase(self) -> CapturePhase {
        if self.adb_available {
            CapturePhase::WaitingForDevice
        } else {
            CapturePhase::NoAdb
        }
    }

    /// The capture is stopped; what is still under way belongs to an old session.
    pub open spec fn stopped(self) -> Step {
        (
            CaptureModel { session_id: self.session_id + 1, capturing: false, ..self },
            if self.capturing {
                seq![Order::StopLogcat]
            } else {
                seq![]
            },
        )
    }

    /// The capture is started, in a session of its own, unless it runs or cannot
    /// be.
    pub open spec fn started(self) -> Step {
        if self.capturing || !self.device_available() || !self.adb_available {
            (self, seq![])
        } else {
            (
                CaptureModel {
                    session_id: self.session_id + 1,
                    last_error: None,
                    phase: CapturePhase::Connecting,
                    ..self
                },
                seq![
                    Order::StartLogcat {
                        session_id: self.session_id + 1,
                        serial: self.selected->0,
                        buffers: self.buffers,
                    },
                ],
            )
        }
    }

    /// One step after another.
    pub open spec fn and_started(step: Step) -> Step {
        (step.0.started().0, step.1 + step.0.started().1)
    }

    /// The device is no longer chosen.
    pub open spec fn deselected(self) -> CaptureModel {
        CaptureModel {
            selected: None,
            package_query_pending: false,
            process_query_pending: false,
            packages: seq![],
            ..self
        }
    }

    /// The list of devices has changed. A device that was waited for is captured; a
    /// device that is gone is no longer chosen.
    pub open spec fn reconciled(self) -> Step {
        if self.device_available() {
            if !self.capturing && self.phase == CapturePhase::WaitingForDevice {
                self.started()
            } else {
                (self, seq![])
            }
        } else {
            let step = if self.capturing {
                self.stopped()
            } else {
                (self, seq![])
            };
            let left = if self.selected is Some {
                step.0.deselected()
            } else {
                step.0
            };
            (CaptureModel { phase: self.idle_phase(), ..left }, step.1)
        }
    }

    /// The packages are asked for.
    pub open spec fn packages_asked(self) -> Step {
        match self.selected {
            Some(serial) => if self.adb_available {
                (
                    CaptureModel { package_query_pending: true, ..self },
                    seq![Order::QueryPackages { serial }],
                )
            } else {
                (self, seq![])
            },
            None => (self, seq![]),
        }
    }

    /// A device is chosen: its log is read from now on.
    pub open spec fn switched(self, serial: Seq<char>) -> Step {
        if self.selected == Some(serial) && self.capturing {
            (self, seq![])
        } else {
            let stop = self.stopped();
            let chosen = CaptureModel { selected: Some(serial), ..stop.0.deselected() };
            if chosen.device_available() {
                let asked = chosen.packages_asked();
                CaptureModel::and_started(
                    (asked.0, stop.1 + asked.1 + seq![Order::ResetProcessClock]),
                )
            } else {
                (CaptureModel { phase: CapturePhase::WaitingForDevice, ..chosen }, stop.1)
            }
        }
    }

    /// The capture is paused: the device stays chosen.
    pub open spec fn paused(self) -> Step {
        (CaptureModel { phase: CapturePhase::Paused, ..self.stopped().0 }, self.stopped().1)
    }

    /// The capture is closed: no device is chosen.
    pub open spec fn closed_capture(self) -> Step {
        (
            CaptureModel { phase: self.idle_phase(), ..self.stopped().0.deselected() },
            self.stopped().1,
        )
    }

    /// The chosen buffers take effect; a running capture is started anew with them,
    /// any other stays as it is.
    pub open spec fn buffers_applied(self) -> Step {
        let draft = model::normalized(self.draft);
        if self.buffers == draft {
            (CaptureModel { draft, ..self }, seq![])
        } else {
            let stop = self.stopped();
            let changed = CaptureModel { draft, buffers: draft, ..stop.0 };
            if self.capturing {
                CaptureModel::and_started((changed, stop.1))
            } else {
                (changed, stop.1)
            }
        }
    }

    /// A failed capture is tried once more.
    pub open spec fn retried(self) -> Step {
        let stop = self.stopped();
        if self.device_available() {
            CaptureModel::and_started(stop)
        } else {
            (CaptureModel { phase: CapturePhase::WaitingForDevice, ..stop.0 }, stop.1)
        }
    }

    /// The bridge was looked for, and the devices are asked for.
    pub open spec fn refreshed(self, found: bool) -> Step {
        if self.device_query_pending {
            (self, seq![])
        } else if !found {
            CaptureModel { adb_available: false, devices: seq![], adb_status: seq![], ..self }.reconciled()
        } else {
            (
                CaptureModel {
                    adb_available: true,
                    adb_status: seq![],
                    phase: if self.phase == CapturePhase::NoAdb {
                        CapturePhase::WaitingForDevice
                    } else {
                        self.phase
                    },
                    device_query_pending: true,
                    ..self
                },
                seq![Order::QueryDevices],
            )
        }
    }

    /// The regular questions, after so many milliseconds since the last ones.
    pub open spec fn polled(self, device_millis: int, process_millis: int) -> Step {
        if !self.adb_available {
            (self, seq![])
        } else {
            let devices = !self.device_query_pending && device_millis
                >= DEVICE_POLL_MILLIS;
            let processes = self.device_available() && self.capturing
                && !self.process_query_pending && process_millis >= PROCESS_POLL_MILLIS;
            (
                CaptureModel {
                    device_query_pending: self.device_query_pending || devices,
                    process_query_pending: self.process_query_pending || processes,
                    ..self
                },
                (if devices {
                    seq![Order::QueryDevices]
                } else {
                    seq![]
                }) + (if processes {
                    seq![Order::QueryProcesses { serial: self.selected->0 }]
                } else {
                    seq![]
                }),
            )
        }
    }
}

/// The message at the end of a session: what is said about it, or else what the
/// bridge last printed, or else its exit code.
pub open spec fn end_message(
    code: Option<i32>,
    error: Option<Seq<char>>,
    last: Option<Seq<char>>,
) -> Seq<char> {
    match (error, last, code) {
        (Some(message), _, _) => message,
        (None, Some(message), _) => message,
        (None, None, Some(code)) => "Logcat stopped ("@ + crate::render::signed_digits(code as int)
            + ")"@,
        (None, None, None) => "Logcat stopped"@,
    }
}

impl CaptureModel {
    /// The bridge has listed the devices, or said why it did not.
    pub open spec fn devices_listed(
        self,
        result: Result<Seq<adb::DeviceText>, Seq<char>>,
    ) -> Step {
        let answered = CaptureModel { device_query_pending: false, ..self };
        match result {
            Ok(devices) => CaptureModel { adb_status: seq![], devices, ..answered }.reconciled(),
            Err(message) => CaptureModel {
                adb_status: message,
                devices: seq![],
                ..answered
            }.reconciled(),
        }
    }

    /// The bridge has listed the packages of a device; an answer for another device
    /// than the chosen one is ignored.
    pub open spec fn packages_listed(
        self,
        serial: Seq<char>,
        result: Result<Seq<Seq<char>>, Seq<char>>,
    ) -> CaptureModel {
        if self.selected != Some(serial) {
            self
        } else {
            match result {
                Ok(packages) => CaptureModel { package_query_pending: false, packages, ..self },
                Err(message) => CaptureModel {
                    package_query_pending: false,
                    adb_status: message,
                    ..self
                },
            }
        }
    }

    /// The session has ended.
    pub open spec fn ended(self, code: Option<i32>, error: Option<Seq<char>>) -> Step {
        (
            CaptureModel {
                capturing: false,
                last_error: if error is None {
                    None
                } else {
                    self.last_error
                },
                phase: CapturePhase::Error(end_message(code, error, self.last_error)),
                ..self
            },
            if self.capturing {
                seq![Order::StopLogcat]
            } else {
                seq![]
            },
        )
    }
}

/// A choice without one of the buffers.
pub open spec fn others(buffers: Seq<LogBuffer>, buffer: LogBuffer) -> Seq<LogBuffer> {
    buffers.filter(other_than(buffer))
}

/// Every buffer but one.
pub open spec fn other_than(buffer: LogBuffer) -> spec_fn(LogBuffer) -> bool {
    |b: LogBuffer| b != buffer
}

/// A choice of buffers in which one is switched on or off. `All` excludes the
/// others.
pub open spec fn toggled(draft: Seq<LogBuffer>, buffer: LogBuffer, enabled: bool) -> Seq<LogBuffer> {
    if !enabled {
        others(draft, buffer)
    } else if buffer == LogBuffer::All {
        seq![LogBuffer::All]
    } else {
        others(draft, LogBuffer::All).push(buffer)
    }
}

/// A choice without one of the buffers.
fn without(buffers: &Vec<LogBuffer>, buffer: LogBuffer) -> (r: Vec<LogBuffer>)
    ensures
        r@ == others(buffers@, buffer),
{
    let mut out: Vec<LogBuffer> = Vec::new();
    let ghost keep = other_than(buffer);
    let mut i: usize = 0;
    proof {
        assert(buffers@.take(0).filter(keep) =~= seq![]) by {
            reveal(Seq::filter);
        }
    }
    while i < buffers.len()
        invariant
            i <= buffers@.len(),
            keep == other_than(buffer),
            out@ == buffers@.take(i as int).filter(keep),
        decreases buffers@.len() - i,
    {
        proof {
            model::lemma_filter_step(buffers@, keep, i as int);
        }
        if buffers[i] != buffer {
            out.push(buffers[i]);
        }
        i += 1;
    }
    assert(buffers@.take(i as int) =~= buffers@);
    out
}

/// How often the devices are asked for.
pub const DEVICE_POLL_MILLIS: u64 = 2000;

/// How often the processes are asked for.
pub const PROCESS_POLL_MILLIS: u64 = 750;

/// A copy of a choice of buffers.
fn copied(buffers: &Vec<LogBuffer>) -> (r: Vec<LogBuffer>)
    ensures
        r@ == buffers@,
{
    let mut copy: Vec<LogBuffer> = Vec::new();
    copy.extend_from_slice(buffers.as_slice());
    assert(copy@ =~= buffers@);
    copy
}

impl Capture {
    /// The capture in texts.
    pub open spec fn model(self) -> CaptureModel {
        CaptureModel {
            adb_available: self.adb_available,
            adb_status: self.adb_status@,
            devices: adb::device_texts(self.devices@),
            selected: optional(self.selected_device),
            device_query_pending: self.device_query_pending,
            package_query_pending: self.package_query_pending,
            process_query_pending: self.process_query_pending,
            capturing: self.capturing,
            session_id: self.session_id as int,
            phase: self.state.phase(),
            last_error: optional(self.last_error),
            packages: text::texts(self.packages@),
            buffers: self.buffers@,
            draft: self.buffer_draft@,
        }
    }

    /// Whether no device in the list can be used.
    pub open spec fn none_usable(self) -> bool {
        forall|i: int|
            0 <= i < self.devices@.len() ==> !(#[trigger] self.devices@[i]).is_available()
    }

    /// Whether a device in the list can be used.
    pub fn has_usable_device(&self) -> (r: bool)
        ensures
            r == !self.none_usable(),
    {
        let mut i: usize = 0;
        while i < self.devices.len()
            invariant
                i <= self.devices@.len(),
                forall|j: int|
                    0 <= j < i ==> !(#[trigger] self.devices@[j]).is_available(),
            decreases self.devices@.len() - i,
        {
            if self.devices[i].available() {
                assert(self.devices@[i as int].is_available());
                return true;
            }
            i += 1;
        }
        false
    }

    /// Whether the chosen device is connected and can be used.
    pub fn selected_device_available(&self) -> (r: bool)
        ensures
            r == self.model().device_available(),
    {
        match &self.selected_device {
            None => false,
            Some(serial) => {
                let ghost listed = adb::device_texts(self.devices@);
                let mut i: usize = 0;
                while i < self.devices.len()
                    invariant
                        i <= self.devices@.len(),
                        self.selected_device == Some(*serial),
                        listed == adb::device_texts(self.devices@),
                        forall|j: int|
                            0 <= j < i ==> !((#[trigger] listed[j]).serial == serial@
                                && listed[j].state == "device"@),
                    decreases self.devices@.len() - i,
                {
                    let device = &self.devices[i];
                    assert(listed[i as int] == device.texts());
                    if equal(device.serial.as_str(), serial.as_str()) && device.available() {
                        assert(self.model().devices[i as int].serial == serial@);
                        return true;
                    }
                    i += 1;
                }
                false
            },
        }
    }

    /// Stops the capture.
    pub fn stop_capture(&mut self) -> (r: Vec<Command>)
        requires
            old(self).session_id < u64::MAX,
        ensures
            (final(self).model(), orders(r@)) == old(self).model().stopped(),
    {
        self.session_id += 1;
        let mut commands: Vec<Command> = Vec::new();
        if self.capturing {
            self.capturing = false;
            commands.push(Command::StopLogcat);
        }
        assert(orders(commands@) =~= old(self).model().stopped().1);
        commands
    }

    /// Starts the capture, unless it runs or cannot be.
    pub fn start_capture(&mut self) -> (r: Vec<Command>)
        requires
            old(self).session_id < u64::MAX,
        ensures
            (final(self).model(), orders(r@)) == old(self).model().started(),
    {
        let mut commands: Vec<Command> = Vec::new();
        if self.capturing || !self.selected_device_available() || !self.adb_available {
            assert(orders(commands@) =~= seq![]);
            return commands;
        }
        self.session_id += 1;
        self.last_error = None;
        self.state = CaptureState::Connecting;
        if let Some(serial) = &self.selected_device {
            commands.push(
                Command::StartLogcat {
                    session_id: self.session_id,
                    serial: serial.clone(),
                    buffers: copied(&self.buffers),
                },
            );
        }
        assert(orders(commands@) =~= old(self).model().started().1);
        commands
    }

    /// No device is chosen any more.
    fn deselect(&mut self)
        ensures
            final(self).model() == old(self).model().deselected(),
            final(self).session_id == old(self).session_id,
    {
        self.selected_device = None;
        self.package_query_pending = false;
        self.process_query_pending = false;
        self.packages = Vec::new();
        assert(text::texts(self.packages@) =~= seq![]);
    }

    /// What the capture does without a device.
    fn idle_state(&self) -> (r: CaptureState)
        ensures
            r.phase() == self.model().idle_phase(),
    {
        if self.adb_available {
            CaptureState::WaitingForDevice
        } else {
            CaptureState::NoAdb
        }
    }

    /// Follows a change of the list of devices.
    pub fn reconcile_device_selection(&mut self) -> (r: Vec<Command>)
        requires
            old(self).session_id < u64::MAX,
        ensures
            (final(self).model(), orders(r@)) == old(self).model().reconciled(),
            final(self).session_id <= old(self).session_id + 1,
    {
        if self.selected_device_available() {
            let waiting = match &self.state {
                CaptureState::WaitingForDevice => true,
                _ => false,
            };
            if !self.capturing && waiting {
                return self.start_capture();
            }
            let commands: Vec<Command> = Vec::new();
            assert(orders(commands@) =~= seq![]);
            return commands;
        }
        let mut commands: Vec<Command> = Vec::new();
        assert(orders(commands@) =~= seq![]);
        if self.capturing {
            commands = self.stop_capture();
        }
        if self.selected_device.is_some() {
            self.deselect();
        }
        self.state = self.idle_state();
        commands
    }

    /// Asks for the packages of the chosen device.
    pub fn query_packages(&mut self) -> (r: Vec<Command>)
        ensures
            (final(self).model(), orders(r@)) == old(self).model().packages_asked(),
            final(self).session_id == old(self).session_id,
    {
        let mut commands: Vec<Command> = Vec::new();
        if self.adb_available {
            if let Some(serial) = &self.selected_device {
                self.package_query_pending = true;
                commands.push(Command::QueryPackages { serial: serial.clone() });
            }
        }
        assert(orders(commands@) =~= old(self).model().packages_asked().1);
        commands
    }

    /// Chooses a device.
    pub fn switch_device(&mut self, serial: String) -> (r: Vec<Command>)
        requires
            old(self).session_id < u64::MAX - 1,
        ensures
            (final(self).model(), orders(r@)) == old(self).model().switched(serial@),
    {
        let same = match &self.selected_device {
            Some(selected) => equal(selected.as_str(), serial.as_str()),
            None => false,
        };
        if same && self.capturing {
            let commands: Vec<Command> = Vec::new();
            assert(orders(commands@) =~= seq![]);
            return commands;
        }
        let ghost name = serial@;
        let ghost before = self.model();
        let mut commands = self.stop_capture();
        let ghost stop = orders(commands@);
        self.deselect();
        self.selected_device = Some(serial);
        let ghost chosen = CaptureModel { selected: Some(name), ..before.stopped().0.deselected() };
        assert(self.model() =~= chosen);
        if self.selected_device_available() {
            let mut asked = self.query_packages();
            let ghost ask = orders(asked@);
            let mut start = self.start_capture();
            let ghost first = commands@;
            let ghost second = asked@;
            let ghost third = start@;
            commands.append(&mut asked);
            commands.push(Command::ResetProcessClock);
            commands.append(&mut start);
            proof {
                assert(orders(commands@) =~= stop + ask + seq![Order::ResetProcessClock] + orders(
                    third,
                ));
            }
        } else {
            self.state = CaptureState::WaitingForDevice;
        }
        commands
    }

    /// Pauses the capture.
    pub fn pause_capture(&mut self) -> (r: Vec<Command>)
        requires
            old(self).session_id < u64::MAX,
        ensures
            (final(self).model(), orders(r@)) == old(self).model().paused(),
    {
        let commands = self.stop_capture();
        self.state = CaptureState::Paused;
        commands
    }

    /// Closes the capture.
    pub fn close_capture(&mut self) -> (r: Vec<Command>)
        requires
            old(self).session_id < u64::MAX,
        ensures
            (final(self).model(), orders(r@)) == old(self).model().closed_capture(),
    {
        let commands = self.stop_capture();
        self.deselect();
        self.state = self.idle_state();
        commands
    }

    /// Lets the chosen buffers take effect; says whether they are others than
    /// before.
    pub fn apply_buffers(&mut self) -> (r: (Vec<Command>, bool))
        requires
            old(self).session_id < u64::MAX - 1,
        ensures
            (final(self).model(), orders(r.0@)) == old(self).model().buffers_applied(),
            r.1 == (old(self).buffers@ != model::normalized(old(self).buffer_draft@)),
    {
        let ghost before = self.model();
        LogBuffer::normalize(&mut self.buffer_draft);
        if same_buffers(&self.buffers, &self.buffer_draft) {
            let commands: Vec<Command> = Vec::new();
            assert(orders(commands@) =~= seq![]);
            return (commands, false);
        }
        let restart = self.capturing;
        let mut commands = self.stop_capture();
        self.buffers = copied(&self.buffer_draft);
        let ghost stop = before.stopped();
        let ghost draft = model::normalized(before.draft);
        assert(self.model() =~= (CaptureModel { draft, buffers: draft, ..stop.0 }));
        if restart {
            let ghost first = commands@;
            let mut start = self.start_capture();
            let ghost second = start@;
            commands.append(&mut start);
            assert(orders(commands@) =~= orders(first) + orders(second));
        }
        (commands, true)
    }

    /// Tries a failed capture once more.
    pub fn retry_capture(&mut self) -> (r: Vec<Command>)
        requires
            old(self).session_id < u64::MAX - 1,
        ensures
            (final(self).model(), orders(r@)) == old(self).model().retried(),
    {
        let mut commands = self.stop_capture();
        if self.selected_device_available() {
            let ghost first = commands@;
            let mut start = self.start_capture();
            let ghost second = start@;
            commands.append(&mut start);
            assert(orders(commands@) =~= orders(first) + orders(second));
        } else {
            self.state = CaptureState::WaitingForDevice;
        }
        commands
    }

    /// Goes on after the bridge was looked for.
    pub fn refresh_devices(&mut self, found: bool) -> (r: Vec<Command>)
        requires
            old(self).session_id < u64::MAX,
        ensures
            (final(self).model(), orders(r@)) == old(self).model().refreshed(found),
    {
        let mut commands: Vec<Command> = Vec::new();
        assert(orders(commands@) =~= seq![]);
        if self.device_query_pending {
            return commands;
        }
        self.adb_available = found;
        self.adb_status = String::new();
        assert(self.adb_status@ =~= seq![]);
        if !found {
            self.devices = Vec::new();
            assert(adb::device_texts(self.devices@) =~= seq![]);
            return self.reconcile_device_selection();
        }
        let missing = match &self.state {
            CaptureState::NoAdb => true,
            _ => false,
        };
        if missing {
            self.state = CaptureState::WaitingForDevice;
        }
        self.device_query_pending = true;
        commands.push(Command::QueryDevices);
        assert(orders(commands@) =~= seq![Order::QueryDevices]);
        commands
    }

    /// Asks the regular questions that are due.
    pub fn schedule_periodic_queries(&mut self, device_millis: u64, process_millis: u64) -> (r: Vec<
        Command,
    >)
        ensures
            (final(self).model(), orders(r@)) == old(self).model().polled(
                device_millis as int,
                process_millis as int,
            ),
            final(self).session_id == old(self).session_id,
    {
        let mut commands: Vec<Command> = Vec::new();
        if self.adb_available {
            if !self.device_query_pending && device_millis >= DEVICE_POLL_MILLIS {
                self.device_query_pending = true;
                commands.push(Command::QueryDevices);
            }
            if self.selected_device_available() && self.capturing && !self.process_query_pending
                && process_millis >= PROCESS_POLL_MILLIS {
                if let Some(serial) = &self.selected_device {
                    self.process_query_pending = true;
                    commands.push(Command::QueryProcesses { serial: serial.clone() });
                }
            }
        }
        assert(orders(commands@) =~= old(self).model().polled(
            device_millis as int,
            process_millis as int,
        ).1);
        commands
    }
}

impl Capture {
    /// Takes in the list of devices.
    pub fn devices_listed(&mut self, result: Result<Vec<DeviceInfo>, String>) -> (r: Vec<Command>)
        requires
            old(self).session_id < u64::MAX,
        ensures
            (final(self).model(), orders(r@)) == old(self).model().devices_listed(
                match result {
                    Ok(devices) => Ok(adb::device_texts(devices@)),
                    Err(message) => Err(message@),
                },
            ),
    {
        self.device_query_pending = false;
        match result {
            Ok(devices) => {
                self.adb_status = String::new();
                self.devices = devices;
                assert(self.adb_status@ =~= seq![]);
            },
            Err(message) => {
                self.adb_status = message;
                self.devices = Vec::new();
                assert(adb::device_texts(self.devices@) =~= seq![]);
            },
        }
        self.reconcile_device_selection()
    }

    /// Whether an answer is for the chosen device.
    pub fn is_selected(&self, serial: &str) -> (r: bool)
        ensures
            r == (self.model().selected == Some(serial@)),
    {
        match &self.selected_device {
            Some(selected) => equal(selected.as_str(), serial),
            None => false,
        }
    }

    /// Takes in the list of packages.
    pub fn packages_listed(&mut self, serial: &str, result: Result<Vec<String>, String>)
        ensures
            final(self).model() == old(self).model().packages_listed(
                serial@,
                match result {
                    Ok(packages) => Ok(text::texts(packages@)),
                    Err(message) => Err(message@),
                },
            ),
            final(self).session_id == old(self).session_id,
    {
        if !self.is_selected(serial) {
            return;
        }
        self.package_query_pending = false;
        match result {
            Ok(packages) => {
                self.packages = packages;
            },
            Err(message) => {
                self.adb_status = message;
            },
        }
    }

    /// Takes in that the processes were answered; says whether they are those of
    /// the chosen device.
    pub fn processes_answered(&mut self, serial: &str) -> (r: bool)
        ensures
            r == (old(self).model().selected == Some(serial@)),
            final(self).model() == (if r {
                CaptureModel { process_query_pending: false, ..old(self).model() }
            } else {
                old(self).model()
            }),
            final(self).session_id == old(self).session_id,
    {
        if !self.is_selected(serial) {
            return false;
        }
        self.process_query_pending = false;
        true
    }

    /// Takes in how starting the log went.
    pub fn logcat_started(&mut self, result: Result<(), String>)
        ensures
            final(self).model() == (match result {
                Ok(_) => CaptureModel { capturing: true, ..old(self).model() },
                Err(message) => CaptureModel {
                    phase: CapturePhase::Error(message@),
                    ..old(self).model()
                },
            }),
    {
        match result {
            Ok(_) => {
                self.capturing = true;
            },
            Err(message) => {
                self.state = CaptureState::Error(message);
            },
        }
    }

    /// Takes in the end of the session.
    pub fn logcat_ended(&mut self, code: Option<i32>, error: Option<String>) -> (r: Vec<Command>)
        ensures
            (final(self).model(), orders(r@)) == old(self).model().ended(code, optional(error)),
            final(self).session_id == old(self).session_id,
    {
        let mut commands: Vec<Command> = Vec::new();
        if self.capturing {
            self.capturing = false;
            commands.push(Command::StopLogcat);
        }
        assert(orders(commands@) =~= old(self).model().ended(code, optional(error)).1);
        let message = match error {
            Some(message) => message,
            None => match self.last_error.take() {
                Some(message) => message,
                None => match code {
                    Some(code) => {
                        let mut text = "Logcat stopped (".to_owned();
                        text.append(signed_decimal(code).as_str());
                        text.append(")");
                        text
                    },
                    None => "Logcat stopped".to_owned(),
                },
            },
        };
        self.state = CaptureState::Error(message);
        commands
    }

    /// Switches a buffer on or off in the choice that is being made.
    pub fn toggle_buffer(&mut self, buffer: LogBuffer, enabled: bool)
        ensures
            final(self).model() == (CaptureModel {
                draft: toggled(old(self).buffer_draft@, buffer, enabled),
                ..old(self).model()
            }),
            final(self).session_id == old(self).session_id,
    {
        if !enabled {
            self.buffer_draft = without(&self.buffer_draft, buffer);
        } else if buffer == LogBuffer::All {
            self.buffer_draft = vec![LogBuffer::All];
        } else {
            self.buffer_draft = without(&self.buffer_draft, LogBuffer::All);
            self.buffer_draft.push(buffer);
        }
    }
}

// ---------------------------------------------------------------------------
// What holds of every capture
// ---------------------------------------------------------------------------

/// Stopping, pausing, closing, retrying and changing the buffers all end the
/// session: what it still sends carries another number from then on.
pub proof fn lemma_stopping_ends_the_session(m: CaptureModel, serial: Seq<char>)
    ensures
        m.stopped().0.session_id > m.session_id,
        m.paused().0.session_id > m.session_id,
        m.closed_capture().0.session_id > m.session_id,
        m.retried().0.session_id > m.session_id,
        m.buffers != model::normalized(m.draft) ==> m.buffers_applied().0.session_id
            > m.session_id,
        m.switched(serial).0.session_id > m.session_id || m.switched(serial) == (
            m,
            Seq::<Order>::empty(),
        ),
{
}

/// Whether a list holds a device that can be used under a serial.
pub open spec fn lists(devices: Seq<adb::DeviceText>, serial: Seq<char>) -> bool {
    exists|i: int|
        0 <= i < devices.len() && (#[trigger] devices[i]).serial == serial && devices[i].state
            == "device"@
}

/// A running capture goes on as long as its device is there: taking in the list of
/// devices orders nothing, and the session, what it shows and the chosen device stay.
pub proof fn lemma_running_capture_goes_on(
    m: CaptureModel,
    serial: Seq<char>,
    devices: Seq<adb::DeviceText>,
)
    requires
        m.capturing,
        m.selected == Some(serial),
        lists(devices, serial),
    ensures
        m.devices_listed(Ok(devices)).1.len() == 0,
        m.devices_listed(Ok(devices)).0 == (CaptureModel {
            device_query_pending: false,
            adb_status: seq![],
            devices,
            ..m
        }),
{
    let listed = CaptureModel {
        device_query_pending: false,
        adb_status: seq![],
        devices,
        ..m
    };
    assert(listed.device_available()) by {
        let i = choose|i: int|
            0 <= i < devices.len() && (#[trigger] devices[i]).serial == serial
                && devices[i].state == "device"@;
        assert(listed.devices[i].serial == serial);
    }
}

/// A paused capture stays paused, whatever devices come and go, as long as its own
/// is there: only the user starts it again.
pub proof fn lemma_pause_is_kept(m: CaptureModel, devices: Seq<adb::DeviceText>)
    requires
        m.phase == CapturePhase::Paused,
        !m.capturing,
        (CaptureModel { devices, ..m }).device_available(),
    ensures
        m.devices_listed(Ok(devices)).0.phase == CapturePhase::Paused,
        m.devices_listed(Ok(devices)).0.selected == m.selected,
        m.devices_listed(Ok(devices)).0.session_id == m.session_id,
        m.devices_listed(Ok(devices)).1.len() == 0,
{
    let listed = CaptureModel {
        adb_status: seq![],
        devices,
        device_query_pending: false,
        ..m
    };
    let other = CaptureModel { devices, ..m };
    let serial = m.selected->0;
    let i = choose|i: int|
        0 <= i < other.devices.len() && (#[trigger] other.devices[i]).serial == serial
            && other.devices[i].state == "device"@;
    assert(listed.devices[i].serial == serial);
}

/// Changing the buffers of a paused capture does not start it.
pub proof fn lemma_buffers_keep_a_pause(m: CaptureModel)
    requires
        m.phase == CapturePhase::Paused,
        !m.capturing,
    ensures
        m.buffers_applied().0.phase == CapturePhase::Paused,
        m.buffers_applied().0.buffers == model::normalized(m.draft),
        m.buffers_applied().1.len() == 0,
{
}

/// Pausing keeps the chosen device, closing does not; neither asks anything of the
/// bridge but to stop.
pub proof fn lemma_pause_and_close(m: CaptureModel)
    ensures
        m.paused().0.selected == m.selected,
        m.closed_capture().0.selected is None,
        !m.paused().0.capturing && !m.closed_capture().0.capturing,
        m.paused().1 == m.closed_capture().1,
        forall|i: int|
            0 <= i < m.paused().1.len() ==> #[trigger] m.paused().1[i] == Order::StopLogcat,
{
}

/// Only the user chooses a device: whatever the bridge answers and whatever is due,
/// the chosen device stays or is given up.
pub proof fn lemma_only_the_user_chooses(
    m: CaptureModel,
    devices: Result<Seq<adb::DeviceText>, Seq<char>>,
    serial: Seq<char>,
    packages: Result<Seq<Seq<char>>, Seq<char>>,
    found: bool,
    device_millis: int,
    process_millis: int,
)
    ensures
        m.devices_listed(devices).0.selected is Some ==> m.devices_listed(devices).0.selected
            == m.selected,
        m.packages_listed(serial, packages).selected == m.selected,
        m.refreshed(found).0.selected is Some ==> m.refreshed(found).0.selected == m.selected,
        m.polled(device_millis, process_millis).0.selected == m.selected,
{
}

/// Choosing a device that can be used starts the capture of its log, with the
/// buffers in use.
pub proof fn lemma_choosing_starts_the_capture(m: CaptureModel, serial: Seq<char>)
    requires
        m.adb_available,
        (CaptureModel { selected: Some(serial), ..m }).device_available(),
        !(m.selected == Some(serial) && m.capturing),
    ensures
        m.switched(serial).0.selected == Some(serial),
        m.switched(serial).0.phase == CapturePhase::Connecting,
        m.switched(serial).1.len() > 0,
        m.switched(serial).1.last() == (Order::StartLogcat {
            session_id: m.switched(serial).0.session_id,
            serial,
            buffers: m.buffers,
        }),
{
    let wanted = CaptureModel { selected: Some(serial), ..m };
    let chosen = CaptureModel { selected: Some(serial), ..m.stopped().0.deselected() };
    let i = choose|i: int|
        0 <= i < wanted.devices.len() && (#[trigger] wanted.devices[i]).serial == serial
            && wanted.devices[i].state == "device"@;
    assert(chosen.devices[i].serial == serial);
    assert(chosen.device_available());
    let asked = chosen.packages_asked();
    assert(asked.0.devices[i].serial == serial);
    assert(asked.0.device_available());
}

/// Whether a log is started only after the one that was read has been stopped.
pub open spec fn one_at_a_time(m: CaptureModel, step: Step) -> bool {
    m.capturing && (exists|i: int|
        0 <= i < step.1.len() && #[trigger] step.1[i] is StartLogcat) ==> step.1[0]
        == Order::StopLogcat
}

/// No log is started while another one is read.
pub proof fn lemma_one_log_at_a_time(
    m: CaptureModel,
    serial: Seq<char>,
    devices: Result<Seq<adb::DeviceText>, Seq<char>>,
    found: bool,
)
    ensures
        one_at_a_time(m, m.started()),
        one_at_a_time(m, m.switched(serial)),
        one_at_a_time(m, m.buffers_applied()),
        one_at_a_time(m, m.retried()),
        one_at_a_time(m, m.devices_listed(devices)),
        one_at_a_time(m, m.refreshed(found)),
{
    if m.capturing {
        assert(m.stopped().1[0] == Order::StopLogcat);
    }
}

/// In the choice that is being made `All` is never combined with another buffer.
pub proof fn lemma_all_excludes_others(draft: Seq<LogBuffer>, buffer: LogBuffer, enabled: bool)
    requires
        draft.contains(LogBuffer::All) ==> draft == seq![LogBuffer::All],
    ensures
        toggled(draft, buffer, enabled).contains(LogBuffer::All) ==> toggled(
            draft,
            buffer,
            enabled,
        ) == seq![LogBuffer::All],
{
    let after = toggled(draft, buffer, enabled);
    let dropped = if enabled {
        LogBuffer::All
    } else {
        buffer
    };
    let keep = other_than(dropped);
    let rest = others(draft, dropped);
    model::lemma_filter_holds(draft, keep, LogBuffer::All);
    if after.contains(LogBuffer::All) && !(enabled && buffer == LogBuffer::All) {
        let i = choose|i: int| 0 <= i < after.len() && after[i] == LogBuffer::All;
        assert(rest[i] == LogBuffer::All);
        assert(rest.contains(LogBuffer::All));
        assert(draft.len() == 1);
        model::lemma_filter_step(draft, keep, 0);
        assert(draft.take(1) =~= draft);
        assert(draft.take(0).filter(keep) =~= seq![]) by {
            reveal(Seq::filter);
        }
        assert(after =~= seq![LogBuffer::All]);
    }
}

/// Finding the chosen device in a list is finding it for a capture with that list.
proof fn lemma_lists(m: CaptureModel, serial: Seq<char>)
    requires
        m.selected == Some(serial),
    ensures
        m.device_available() <==> lists(m.devices, serial),
{
    if lists(m.devices, serial) {
        let i = choose|i: int|
            0 <= i < m.devices.len() && (#[trigger] m.devices[i]).serial == serial
                && m.devices[i].state == "device"@;
        assert(m.devices[i].serial == serial);
    }
    if m.device_available() {
        let i = choose|i: int|
            0 <= i < m.devices.len() && (#[trigger] m.devices[i]).serial == serial
                && m.devices[i].state == "device"@;
        assert(m.devices[i].serial == serial);
    }
}

/// The order to stop, where a log is read.
pub open spec fn stop_order(capturing: bool) -> Seq<Order> {
    if capturing {
        seq![Order::StopLogcat]
    } else {
        seq![]
    }
}

/// Starting asks for one log, that of the chosen device with the buffers in use, in a
/// session with a new number; where a log is read, or the device or the bridge is
/// missing, nothing happens.
pub proof fn lemma_starting(m: CaptureModel, serial: Seq<char>)
    requires
        m.selected == Some(serial),
    ensures
        ({
            let step = m.started();
            if m.capturing || !m.adb_available || !lists(m.devices, serial) {
                step.0 == m && step.1.len() == 0
            } else {
                &&& step.1.len() == 1
                &&& step.1[0] == Order::StartLogcat {
                    session_id: m.session_id + 1,
                    serial,
                    buffers: m.buffers,
                }
                &&& step.0.session_id == m.session_id + 1
                &&& step.0.phase == CapturePhase::Connecting
                &&& step.0.last_error is None
                &&& step.0.selected == m.selected && step.0.packages == m.packages
                    && step.0.devices == m.devices && step.0.buffers == m.buffers
                    && !step.0.capturing
            }
        }),
{
    lemma_lists(m, serial);
}

/// A device that was waited for is captured as soon as it is listed.
pub proof fn lemma_waiting_device_is_captured(
    m: CaptureModel,
    serial: Seq<char>,
    devices: Seq<adb::DeviceText>,
)
    requires
        !m.capturing,
        m.adb_available,
        m.phase == CapturePhase::WaitingForDevice,
        m.selected == Some(serial),
        lists(devices, serial),
    ensures
        ({
            let step = m.devices_listed(Ok(devices));
            &&& step.1.len() == 1
            &&& step.1[0] == Order::StartLogcat {
                session_id: m.session_id + 1,
                serial,
                buffers: m.buffers,
            }
            &&& step.0.session_id == m.session_id + 1
            &&& step.0.phase == CapturePhase::Connecting
            &&& step.0.selected == Some(serial)
            &&& step.0.devices == devices
            &&& !step.0.device_query_pending
        }),
{
    let listed = CaptureModel { device_query_pending: false, adb_status: seq![], devices, ..m };
    lemma_lists(listed, serial);
}

/// A capture that failed or was paused is not started by the list of devices.
pub proof fn lemma_only_waiting_captures_start(
    m: CaptureModel,
    serial: Seq<char>,
    devices: Seq<adb::DeviceText>,
)
    requires
        !m.capturing,
        m.phase != CapturePhase::WaitingForDevice,
        m.selected == Some(serial),
        lists(devices, serial),
    ensures
        m.devices_listed(Ok(devices)).1.len() == 0,
        m.devices_listed(Ok(devices)).0.phase == m.phase,
        m.devices_listed(Ok(devices)).0.session_id == m.session_id,
        m.devices_listed(Ok(devices)).0.selected == m.selected,
{
    let listed = CaptureModel { device_query_pending: false, adb_status: seq![], devices, ..m };
    lemma_lists(listed, serial);
}

/// Whether a capture has been given up with its device.
pub open spec fn given_up(m: CaptureModel, step: Step) -> bool {
    &&& step.0.selected is None
    &&& !step.0.capturing
    &&& step.0.packages.len() == 0
    &&& !step.0.package_query_pending && !step.0.process_query_pending
    &&& step.0.session_id == (if m.capturing {
        m.session_id + 1
    } else {
        m.session_id
    })
    &&& step.1 == stop_order(m.capturing)
    &&& step.0.buffers == m.buffers && step.0.draft == m.draft
}

/// A device that is gone is no longer chosen: its log is stopped where it was read, its
/// packages are forgotten, and another one is waited for. The same holds where the
/// devices could not be listed, which is then said.
pub proof fn lemma_lost_device(
    m: CaptureModel,
    serial: Seq<char>,
    devices: Seq<adb::DeviceText>,
    message: Seq<char>,
)
    requires
        m.selected == Some(serial),
        m.adb_available,
        !lists(devices, serial),
    ensures
        given_up(m, m.devices_listed(Ok(devices))),
        m.devices_listed(Ok(devices)).0.phase == CapturePhase::WaitingForDevice,
        m.devices_listed(Ok(devices)).0.devices == devices,
        m.devices_listed(Ok(devices)).0.adb_status.len() == 0,
        given_up(m, m.devices_listed(Err(message))),
        m.devices_listed(Err(message)).0.phase == CapturePhase::WaitingForDevice,
        m.devices_listed(Err(message)).0.devices.len() == 0,
        m.devices_listed(Err(message)).0.adb_status == message,
{
    let listed = CaptureModel { device_query_pending: false, adb_status: seq![], devices, ..m };
    lemma_lists(listed, serial);
    let failed = CaptureModel {
        device_query_pending: false,
        adb_status: message,
        devices: seq![],
        ..m
    };
    lemma_lists(failed, serial);
}

/// Stopping, pausing and closing ask for nothing but to stop, and only where a log is
/// read. Pausing keeps what is known of the device; closing forgets it.
pub proof fn lemma_stop_pause_close(m: CaptureModel)
    ensures
        m.stopped().1 == stop_order(m.capturing),
        m.paused().1 == stop_order(m.capturing),
        m.closed_capture().1 == stop_order(m.capturing),
        !m.stopped().0.capturing,
        m.stopped().0.session_id == m.session_id + 1,
        m.stopped().0.phase == m.phase,
        m.stopped().0.selected == m.selected,
        m.stopped().0.packages == m.packages,
        m.paused().0.phase == CapturePhase::Paused,
        m.paused().0.selected == m.selected,
        m.paused().0.packages == m.packages,
        m.paused().0.devices == m.devices,
        m.closed_capture().0.selected is None,
        m.closed_capture().0.packages.len() == 0,
        m.closed_capture().0.devices == m.devices,
        m.adb_available ==> m.closed_capture().0.phase == CapturePhase::WaitingForDevice,
        !m.adb_available ==> m.closed_capture().0.phase == CapturePhase::NoAdb,
{
}

/// Choosing a device. The one whose log is read changes nothing. Any other ends the
/// session; where it is listed its packages are asked for and its log is started, and
/// else it is waited for.
pub proof fn lemma_switching(m: CaptureModel, serial: Seq<char>)
    requires
        m.adb_available,
    ensures
        m.selected == Some(serial) && m.capturing ==> m.switched(serial).0 == m && m.switched(
            serial,
        ).1.len() == 0,
        !(m.selected == Some(serial) && m.capturing) ==> {
            let step = m.switched(serial);
            &&& step.0.selected == Some(serial)
            &&& !step.0.capturing
            &&& step.0.packages.len() == 0
            &&& !step.0.process_query_pending
            &&& step.0.devices == m.devices && step.0.buffers == m.buffers
            &&& lists(m.devices, serial) ==> {
                &&& step.1 == stop_order(m.capturing) + seq![
                    Order::QueryPackages { serial },
                    Order::ResetProcessClock,
                    Order::StartLogcat {
                        session_id: m.session_id + 2,
                        serial,
                        buffers: m.buffers,
                    },
                ]
                &&& step.0.session_id == m.session_id + 2
                &&& step.0.phase == CapturePhase::Connecting
                &&& step.0.package_query_pending
            }
            &&& !lists(m.devices, serial) ==> {
                &&& step.1 == stop_order(m.capturing)
                &&& step.0.session_id == m.session_id + 1
                &&& step.0.phase == CapturePhase::WaitingForDevice
                &&& !step.0.package_query_pending
            }
        },
{
    let chosen = CaptureModel { selected: Some(serial), ..m.stopped().0.deselected() };
    lemma_lists(chosen, serial);
    if lists(m.devices, serial) && !(m.selected == Some(serial) && m.capturing) {
        let asked = chosen.packages_asked();
        lemma_lists(asked.0, serial);
        assert(m.switched(serial).1 =~= stop_order(m.capturing) + seq![
            Order::QueryPackages { serial },
            Order::ResetProcessClock,
            Order::StartLogcat { session_id: m.session_id + 2, serial, buffers: m.buffers },
        ]);
    }
}

/// Retrying stops what is left of the session and starts another, or waits for the
/// device, which stays chosen.
pub proof fn lemma_retrying(m: CaptureModel, serial: Seq<char>)
    requires
        m.adb_available,
        m.selected == Some(serial),
    ensures
        m.retried().0.selected == Some(serial),
        !m.retried().0.capturing,
        lists(m.devices, serial) ==> {
            &&& m.retried().1 == stop_order(m.capturing) + seq![
                Order::StartLogcat {
                    session_id: m.session_id + 2,
                    serial,
                    buffers: m.buffers,
                },
            ]
            &&& m.retried().0.session_id == m.session_id + 2
            &&& m.retried().0.phase == CapturePhase::Connecting
        },
        !lists(m.devices, serial) ==> {
            &&& m.retried().1 == stop_order(m.capturing)
            &&& m.retried().0.session_id == m.session_id + 1
            &&& m.retried().0.phase == CapturePhase::WaitingForDevice
        },
{
    lemma_lists(m, serial);
    lemma_lists(m.stopped().0, serial);
}

/// New buffers take effect at once: a log that is read is stopped and started with them.
/// The same buffers leave it alone.
pub proof fn lemma_new_buffers(m: CaptureModel, serial: Seq<char>)
    requires
        m.adb_available,
        m.capturing,
        m.selected == Some(serial),
        lists(m.devices, serial),
    ensures
        m.buffers_applied().0.buffers == model::normalized(m.draft),
        m.buffers_applied().0.draft == model::normalized(m.draft),
        m.buffers_applied().0.selected == Some(serial),
        m.buffers != model::normalized(m.draft) ==> m.buffers_applied().1 == seq![
            Order::StopLogcat,
            Order::StartLogcat {
                session_id: m.session_id + 2,
                serial,
                buffers: model::normalized(m.draft),
            },
        ] && m.buffers_applied().0.phase == CapturePhase::Connecting,
        m.buffers == model::normalized(m.draft) ==> m.buffers_applied().1.len() == 0
            && m.buffers_applied().0.capturing && m.buffers_applied().0.session_id == m.session_id
            && m.buffers_applied().0.phase == m.phase,
{
    let draft = model::normalized(m.draft);
    let changed = CaptureModel { draft, buffers: draft, ..m.stopped().0 };
    lemma_lists(changed, serial);
    if m.buffers != draft {
        assert(m.buffers_applied().1 =~= seq![
            Order::StopLogcat,
            Order::StartLogcat { session_id: m.session_id + 2, serial, buffers: draft },
        ]);
    }
}

/// Looking for the bridge: while the devices are asked for, nothing happens. Once it is
/// found they are asked for, and a running capture goes on; where it is missing the
/// device is given up.
pub proof fn lemma_looking_for_the_bridge(m: CaptureModel, serial: Seq<char>)
    requires
        m.selected == Some(serial),
    ensures
        m.device_query_pending ==> m.refreshed(true).0 == m && m.refreshed(false).0 == m
            && m.refreshed(true).1.len() == 0 && m.refreshed(false).1.len() == 0,
        !m.device_query_pending ==> {
            let found = m.refreshed(true);
            let missing = m.refreshed(false);
            &&& found.1 == seq![Order::QueryDevices]
            &&& found.0.device_query_pending && found.0.adb_available
            &&& found.0.capturing == m.capturing && found.0.selected == m.selected
                && found.0.session_id == m.session_id && found.0.devices == m.devices
            &&& m.phase != CapturePhase::NoAdb ==> found.0.phase == m.phase
            &&& m.phase == CapturePhase::NoAdb ==> found.0.phase == CapturePhase::WaitingForDevice
            &&& given_up(m, missing)
            &&& !missing.0.adb_available && missing.0.devices.len() == 0
            &&& missing.0.phase == CapturePhase::NoAdb
        },
{
    let missing = CaptureModel {
        adb_available: false,
        devices: seq![],
        adb_status: seq![],
        ..m
    };
    lemma_lists(missing, serial);
}

/// The regular questions: with a bridge the devices are asked for every 2000
/// milliseconds, and while a log is read the processes of its device every 750, each only
/// once the last answer is there. Nothing else changes.
pub proof fn lemma_regular_questions(
    m: CaptureModel,
    serial: Seq<char>,
    device_millis: int,
    process_millis: int,
)
    requires
        m.selected == Some(serial),
    ensures
        ({
            let step = m.polled(device_millis, process_millis);
            let devices = m.adb_available && !m.device_query_pending && device_millis >= 2000;
            let processes = m.adb_available && !m.process_query_pending && process_millis >= 750
                && m.capturing && lists(m.devices, serial);
            &&& step.1.contains(Order::QueryDevices) <==> devices
            &&& step.1.contains(Order::QueryProcesses { serial }) <==> processes
            &&& step.1.len() == (if devices {
                1int
            } else {
                0int
            }) + (if processes {
                1int
            } else {
                0int
            })
            &&& step.0.device_query_pending <==> m.device_query_pending || devices
            &&& step.0.process_query_pending <==> m.process_query_pending || processes
            &&& step.0.capturing == m.capturing && step.0.phase == m.phase && step.0.selected
                == m.selected && step.0.session_id == m.session_id && step.0.devices == m.devices
        }),
{
    lemma_lists(m, serial);
    let step = m.polled(device_millis, process_millis);
    let devices = m.adb_available && !m.device_query_pending && device_millis >= 2000;
    let processes = m.adb_available && !m.process_query_pending && process_millis >= 750
        && m.capturing && lists(m.devices, serial);
    if devices {
        assert(step.1[0] == Order::QueryDevices);
    }
    if processes {
        assert(step.1[step.1.len() - 1] == Order::QueryProcesses { serial });
    }
}

/// The end of a session: the log is no longer read, and what is shown is what was said
/// about the end, or else what the bridge printed last, or else the exit code.
pub proof fn lemma_end_of_a_session(m: CaptureModel, code: i32, message: Seq<char>)
    ensures
        m.ended(Some(code), Some(message)).0.phase == CapturePhase::Error(message),
        m.ended(None, Some(message)).0.phase == CapturePhase::Error(message),
        m.last_error matches Some(printed) ==> {
            &&& m.ended(Some(code), None).0.phase == CapturePhase::Error(printed)
            &&& m.ended(None, None).0.phase == CapturePhase::Error(printed)
        },
        m.last_error is None ==> {
            &&& m.ended(Some(code), None).0.phase == CapturePhase::Error(
                "Logcat stopped ("@ + crate::render::signed_digits(code as int) + ")"@,
            )
            &&& m.ended(None, None).0.phase == CapturePhase::Error("Logcat stopped"@)
        },
        m.ended(Some(code), Some(message)).0.last_error == m.last_error,
        m.ended(Some(code), None).0.last_error is None,
        forall|c: Option<i32>, e: Option<Seq<char>>|
            {
                let step = #[trigger] m.ended(c, e);
                &&& !step.0.capturing
                &&& step.0.session_id == m.session_id
                &&& step.0.selected == m.selected
                &&& step.0.packages == m.packages
                &&& step.1 == stop_order(m.capturing)
            },
{
}

/// Packages of another device than the chosen one are ignored; those of the chosen one
/// take the place of the old, and a failure is said and leaves them.
pub proof fn lemma_packages_of_the_device(
    m: CaptureModel,
    serial: Seq<char>,
    packages: Seq<Seq<char>>,
    message: Seq<char>,
)
    ensures
        m.selected != Some(serial) ==> m.packages_listed(serial, Ok(packages)) == m
            && m.packages_listed(serial, Err(message)) == m,
        m.selected == Some(serial) ==> {
            let listed = m.packages_listed(serial, Ok(packages));
            let failed = m.packages_listed(serial, Err(message));
            &&& listed.packages == packages && !listed.package_query_pending && listed.adb_status
                == m.adb_status
            &&& failed.packages == m.packages && !failed.package_query_pending
                && failed.adb_status == message
            &&& listed.capturing == m.capturing && listed.phase == m.phase && listed.session_id
                == m.session_id
            &&& failed.capturing == m.capturing && failed.phase == m.phase && failed.session_id
                == m.session_id
        },
{
}

/// Switching a buffer on or off: it is chosen exactly then. The others stay, but `All`
/// excludes them and they exclude `All`.
pub proof fn lemma_toggled_buffers(draft: Seq<LogBuffer>, buffer: LogBuffer, b: LogBuffer)
    ensures
        toggled(draft, buffer, false).contains(b) <==> b != buffer && draft.contains(b),
        buffer == LogBuffer::All ==> (toggled(draft, buffer, true).contains(b) <==> b
            == LogBuffer::All),
        buffer != LogBuffer::All ==> (toggled(draft, buffer, true).contains(b) <==> b == buffer || (
        b != LogBuffer::All && draft.contains(b))),
{
    model::lemma_filter_holds(draft, other_than(buffer), b);
    model::lemma_filter_holds(draft, other_than(LogBuffer::All), b);
    let rest = others(draft, LogBuffer::All);
    let on = toggled(draft, buffer, true);
    if buffer == LogBuffer::All {
        assert(on[0] == LogBuffer::All);
    } else {
        assert(on[rest.len() as int] == buffer);
        if rest.contains(b) {
            let i = choose|i: int| 0 <= i < rest.len() && rest[i] == b;
            assert(on[i] == b);
        }
        if on.contains(b) && b != buffer {
            let i = choose|i: int| 0 <= i < on.len() && on[i] == b;
            assert(rest[i] == b);
        }
    }
}

/// Without a chosen device nothing is started, stopped or asked but the list of devices,
/// and none is chosen.
pub proof fn lemma_without_a_device(
    m: CaptureModel,
    devices: Result<Seq<adb::DeviceText>, Seq<char>>,
    device_millis: int,
    process_millis: int,
)
    requires
        m.selected is None,
        !m.capturing,
    ensures
        m.started().0 == m && m.started().1.len() == 0,
        m.packages_asked().0 == m && m.packages_asked().1.len() == 0,
        m.devices_listed(devices).1.len() == 0,
        m.devices_listed(devices).0.selected is None,
        m.devices_listed(devices).0.session_id == m.session_id,
        m.devices_listed(devices).0.phase == (if m.adb_available {
            CapturePhase::WaitingForDevice
        } else {
            CapturePhase::NoAdb
        }),
        !m.devices_listed(devices).0.device_query_pending,
        ({
            let step = m.polled(device_millis, process_millis);
            if m.adb_available && !m.device_query_pending && device_millis >= 2000 {
                step.1 == seq![Order::QueryDevices] && step.0.device_query_pending
            } else {
                step.1.len() == 0 && step.0.device_query_pending == m.device_query_pending
            }
        }),
{
    let step = m.polled(device_millis, process_millis);
    if m.adb_available && !m.device_query_pending && device_millis >= 2000 {
        assert(step.1 =~= seq![Order::QueryDevices]);
    }
}

/// Without the bridge no log is started and nothing is asked: what was read is stopped,
/// and the device stays or becomes chosen.
pub proof fn lemma_without_the_bridge(m: CaptureModel, serial: Seq<char>)
    requires
        !m.adb_available,
    ensures
        m.started().0 == m && m.started().1.len() == 0,
        m.retried().1 == stop_order(m.capturing),
        m.retried().0.selected == m.selected,
        !(m.selected == Some(serial) && m.capturing) ==> {
            &&& m.switched(serial).0.selected == Some(serial)
            &&& !m.switched(serial).0.capturing && !m.switched(serial).0.package_query_pending
            &&& m.switched(serial).1 == stop_order(m.capturing) + (if lists(m.devices, serial) {
                seq![Order::ResetProcessClock]
            } else {
                seq![]
            })
        },
        m.polled(2000, 750).1.len() == 0,
{
    let chosen = CaptureModel { selected: Some(serial), ..m.stopped().0.deselected() };
    lemma_lists(chosen, serial);
    if !(m.selected == Some(serial) && m.capturing) {
        assert(m.switched(serial).1 =~= stop_order(m.capturing) + (if lists(m.devices, serial) {
            seq![Order::ResetProcessClock]
        } else {
            seq![]
        }));
    }
}

/// Changing the buffers while no log is read starts none, whatever the capture shows, and
/// the buffers are those of the next start.
pub proof fn lemma_buffers_of_the_next_start(m: CaptureModel)
    requires
        !m.capturing,
    ensures
        m.buffers_applied().1.len() == 0,
        m.buffers_applied().0.phase == m.phase,
        m.buffers_applied().0.selected == m.selected,
        !m.buffers_applied().0.capturing,
        m.buffers_applied().0.buffers == model::normalized(m.draft),
        m.buffers_applied().0.draft == model::normalized(m.draft),
{
}

/// The packages of the chosen device are asked for where there is a bridge to ask, and
/// nothing else changes.
pub proof fn lemma_asking_for_packages(m: CaptureModel, serial: Seq<char>)
    requires
        m.selected == Some(serial),
    ensures
        m.adb_available ==> m.packages_asked().1 == seq![Order::QueryPackages { serial }]
            && m.packages_asked().0 == (CaptureModel { package_query_pending: true, ..m }),
        !m.adb_available ==> m.packages_asked().1.len() == 0 && m.packages_asked().0 == m,
{
}

/// Whether two choices of buffers are the same.
fn same_buffers(a: &Vec<LogBuffer>, b: &Vec<LogBuffer>) -> (r: bool)
    ensures
        r == (a@ == b@),
{
    if a.len() != b.len() {
        return false;
    }
    let mut i: usize = 0;
    while i < a.len()
        invariant
            i <= a@.len() == b@.len(),
            forall|j: int| 0 <= j < i ==> a@[j] == b@[j],
        decreases a@.len() - i,
    {
        if a[i] != b[i] {
            assert(a@[i as int] != b@[i as int]);
            return false;
        }
        i += 1;
    }
    assert(a@ =~= b@);
    true
}

} // verus!
