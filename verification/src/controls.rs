//! Keys, scrolling and the texts around the log.

use vstd::prelude::*;

use crate::capture::CaptureState;
use crate::model::{LogBuffer, LogEntry};
use crate::render::format_count;
use crate::selection::{find_row, NavigationKey};
use crate::session::Session;
use crate::text::equal;
use crate::view::package_matches_search;
use crate::{adb, capture, logs, model, selection, text, view};

verus! {

/// A key that the viewer answers to.
#[derive(Clone, Copy, Debug, Eq, PartialEq, Structural)]
pub enum Shortcut {
    Find,
    Slash,
    Escape,
    Latest,
    SelectAll,
    Navigate { key: NavigationKey, extend: bool },
}

/// What a key does to the inputs.
#[derive(Clone, Copy, Debug, Eq, PartialEq, Structural)]
pub enum FocusChange {
    Keep,
    Query,
    Leave,
}

/// Where the table scrolls to.
#[derive(Clone, Copy, Debug, Eq, PartialEq, Structural)]
pub enum ScrollTarget {
    Stay,
    Bottom(usize),
    Row(usize),
}

/// What is said about the filter: why it failed, that it works, or what it found.
#[derive(Clone, Copy, Debug, Eq, PartialEq, Structural)]
pub enum FilterStatus {
    Failed,
    Busy,
    Done,
}

/// The next step while events are taken in.
#[derive(Clone, Copy, Debug, Eq, PartialEq, Structural)]
pub enum DrainStep {
    Stop { repaint: bool },
    Take { repaint: bool },
}

/// How many events a frame takes in at most.
pub const BACKEND_EVENTS_PER_FRAME: usize = 2048;

/// How many events may wait.
pub const BACKEND_QUEUE_CAPACITY: usize = 4096;

/// How many milliseconds a frame spends on events.
pub const BACKEND_FRAME_MILLIS: u64 = 4;

/// How many milliseconds after the last change the filter is started.
pub const FILTER_DEBOUNCE_MILLIS: u64 = 120;

/// How many milliseconds after the last change the settings are kept.
pub const CONFIG_SAVE_MILLIS: u64 = 600;

/// How many milliseconds the rate of entries is counted over.
pub const RATE_WINDOW_MILLIS: u64 = 1000;

/// Whether a frame takes in one more event, after so many events and milliseconds.
pub open spec fn next_step(processed: int, millis: u64) -> DrainStep {
    if processed >= BACKEND_EVENTS_PER_FRAME {
        DrainStep::Stop { repaint: false }
    } else if millis >= BACKEND_FRAME_MILLIS {
        DrainStep::Stop { repaint: true }
    } else {
        DrainStep::Take { repaint: processed + 1 == BACKEND_EVENTS_PER_FRAME }
    }
}

/// How many of the waiting events a frame has taken in at its end, and whether it
/// asked for another frame. The clock gives the milliseconds after so many events.
pub open spec fn frame(waiting: int, clock: spec_fn(int) -> u64, processed: int) -> (int, bool)
    decreases BACKEND_EVENTS_PER_FRAME - processed,
{
    match next_step(processed, clock(processed)) {
        DrainStep::Stop { repaint } => (processed, repaint),
        DrainStep::Take { repaint } => if processed >= waiting {
            (processed, false)
        } else {
            let rest = frame(waiting, clock, processed + 1);
            (rest.0, repaint || rest.1)
        },
    }
}

/// A frame takes in no more events than wait and no more than its limit, and where it
/// leaves any behind it asks for another frame.
pub proof fn lemma_frame_is_bounded(waiting: int, clock: spec_fn(int) -> u64)
    requires
        waiting >= 0,
    ensures
        0 <= frame(waiting, clock, 0).0 <= BACKEND_EVENTS_PER_FRAME,
        frame(waiting, clock, 0).0 <= waiting,
        frame(waiting, clock, 0).0 < waiting ==> frame(waiting, clock, 0).1,
{
    lemma_frame_from(waiting, clock, 0);
}

/// The same of what is left of a frame.
proof fn lemma_frame_from(waiting: int, clock: spec_fn(int) -> u64, processed: int)
    requires
        0 <= processed <= waiting,
        processed <= BACKEND_EVENTS_PER_FRAME,
    ensures
        processed <= frame(waiting, clock, processed).0 <= BACKEND_EVENTS_PER_FRAME,
        frame(waiting, clock, processed).0 <= waiting,
        frame(waiting, clock, processed).0 < waiting && processed < BACKEND_EVENTS_PER_FRAME
            ==> frame(waiting, clock, processed).1,
    decreases BACKEND_EVENTS_PER_FRAME - processed,
{
    match next_step(processed, clock(processed)) {
        DrainStep::Take { .. } => if processed < waiting {
            lemma_frame_from(waiting, clock, processed + 1);
        },
        _ => {},
    }
}

/// Whether a frame takes in one more event, after so many events and milliseconds.
/// A frame that leaves events behind asks for another one.
pub fn drain_step(processed: usize, millis: u64) -> (r: DrainStep)
    ensures
        r == next_step(processed as int, millis),
{
    if processed >= BACKEND_EVENTS_PER_FRAME {
        DrainStep::Stop { repaint: false }
    } else if millis >= BACKEND_FRAME_MILLIS {
        DrainStep::Stop { repaint: true }
    } else {
        DrainStep::Take { repaint: processed + 1 == BACKEND_EVENTS_PER_FRAME }
    }
}

/// The names of buffers, joined by plus signs.
pub open spec fn joined_names(buffers: Seq<LogBuffer>) -> Seq<char>
    decreases buffers.len(),
{
    if buffers.len() == 0 {
        seq![]
    } else if buffers.len() == 1 {
        model::buffer_name(buffers[0])
    } else {
        joined_names(buffers.drop_last()) + "+"@ + model::buffer_name(buffers.last())
    }
}

/// The first device with a serial.
pub open spec fn device_named(devices: Seq<adb::DeviceInfo>, serial: Seq<char>) -> Option<
    adb::DeviceInfo,
>
    decreases devices.len(),
{
    if devices.len() == 0 {
        None
    } else if devices[0].serial@ == serial {
        Some(devices[0])
    } else {
        device_named(devices.drop_first(), serial)
    }
}

/// The text of the device box.
pub open spec fn device_text(session: Session) -> Seq<char> {
    let chosen = match session.capture.selected_device {
        Some(serial) => device_named(session.capture.devices@, serial@),
        None => None,
    };
    match chosen {
        Some(device) => device.shown_name(),
        None => if session.capture.none_usable() {
            "无设备"@
        } else {
            "选择设备"@
        },
    }
}

/// Whether a package is offered for what was typed.
pub open spec fn offered_for(query: Seq<char>) -> spec_fn(Seq<char>) -> bool {
    |package: Seq<char>| view::offered(package, query)
}

/// What is shown in the place of an empty table.
pub open spec fn empty_text(session: Session) -> Seq<char> {
    if session.logs.filter_pending || session.logs.filter_dirty {
        "Filtering logs…"@
    } else if session.logs.filter_error is Some {
        "Invalid regular expression. Correct the query or turn off .* ."@
    } else if session.logs.entries@.len() > 0 {
        "No matching logs. Check the package, minimum level and message filter."@
    } else {
        match session.capture.state {
            CaptureState::NoAdb =>
                "Install Android platform-tools, then click Refresh to find ADB."@,
            CaptureState::WaitingForDevice =>
                "Connect and authorize an Android device, then select it above."@,
            CaptureState::Error(_) => "Capture stopped. Click Retry to resume."@,
            CaptureState::Paused => "采集已暂停。点击开启继续接收最新日志。"@,
            CaptureState::Connecting | CaptureState::Running =>
                "Waiting for logs from the selected device…"@,
        }
    }
}

/// Whether a key is answered: none while the dialog is open, and besides the ways
/// into and out of the inputs none while one of them or a popup is used.
pub open spec fn answered(
    session: Session,
    shortcut: Shortcut,
    text_focused: bool,
    popup_open: bool,
) -> bool {
    !session.show_save_filter && match shortcut {
        Shortcut::Find | Shortcut::Escape => true,
        Shortcut::Slash => !text_focused,
        _ => !text_focused && !session.package_popup_open && !popup_open,
    }
}

impl Session {
    /// Whether a key is answered.
    pub fn allows(&self, shortcut: Shortcut, text_focused: bool, popup_open: bool) -> (r: bool)
        ensures
            r == answered(*self, shortcut, text_focused, popup_open),
    {
        if self.show_save_filter {
            return false;
        }
        match shortcut {
            Shortcut::Find => true,
            Shortcut::Escape => true,
            Shortcut::Slash => !text_focused,
            _ => !text_focused && !self.package_popup_open && !popup_open,
        }
    }

    /// Only what is selected has changed in the log.
    pub open spec fn reselected(self, before: Session) -> bool {
        self.logs == (logs::LogView {
            selected: self.logs.selected,
            selection: self.logs.selection,
            ..before.logs
        })
    }

    /// The inputs are left, or else nothing is selected any more.
    pub open spec fn escaped_from(self, before: Session, in_input: bool) -> bool {
        if in_input {
            self == (Session { package_popup_open: false, ..before })
        } else {
            &&& self.logs.selected is None
            &&& self.logs.selection.rows@.is_empty()
            &&& self.logs.selection.anchor is None
            &&& self.reselected(before)
            &&& self == (Session { logs: self.logs, ..before })
        }
    }

    /// Every row that is shown is selected.
    pub open spec fn all_selected_from(self, before: Session) -> bool {
        &&& self.logs.selection.rows@ == before.logs.matches@.to_set()
        &&& self.logs.selection.anchor == (if before.logs.matches@.len() == 0 {
            None::<usize>
        } else {
            Some(before.logs.matches@[0])
        })
        &&& self.logs.selected == (if before.logs.selected is None && before.logs.matches@.len()
            > 0 {
            Some(before.logs.matches@[0])
        } else {
            before.logs.selected
        })
        &&& self.reselected(before)
        &&& self == (Session { follow_logs: false, logs: self.logs, ..before })
    }

    /// The selection has moved.
    pub open spec fn moved_from(
        self,
        before: Session,
        key: NavigationKey,
        extend: bool,
    ) -> bool {
        &&& self.logs.selected == selection::navigated(
            before.logs.matches@,
            before.logs.selected,
            key,
        )
        &&& self.logs.selected matches Some(row) ==> {
            &&& self.logs.selection.rows@ == selection::picked_rows(
                before.logs.selection.rows@,
                before.logs.selection.anchor,
                before.logs.matches@,
                row,
                extend,
                false,
            )
            &&& self.logs.selection.anchor == selection::picked_anchor(
                before.logs.selection.anchor,
                before.logs.matches@,
                row,
                extend,
            )
        }
        &&& self.logs.selected is None ==> self.logs.selection == before.logs.selection
        &&& self.reselected(before)
        &&& self == (Session {
            follow_logs: false,
            scroll_to_selected: true,
            logs: self.logs,
            ..before
        })
    }

    /// What a key comes to, besides what it does to the inputs.
    pub open spec fn after_key(self, before: Session, shortcut: Shortcut, in_input: bool) -> bool {
        match shortcut {
            Shortcut::Find | Shortcut::Slash => self == before,
            Shortcut::Escape => self.escaped_from(before, in_input),
            Shortcut::Latest => self == (Session {
                follow_logs: true,
                scroll_to_bottom: true,
                ..before
            }),
            Shortcut::SelectAll => self.all_selected_from(before),
            Shortcut::Navigate { key, extend } => self.moved_from(before, key, extend),
        }
    }

    /// Leaves the inputs, or else deselects everything.
    fn escape(&mut self, in_input: bool) -> (r: FocusChange)
        requires
            old(self).wf(),
        ensures
            final(self).wf(),
            old(self).logs.in_sync() ==> final(self).logs.in_sync(),
            final(self).escaped_from(*old(self), in_input),
            r == (if in_input {
                FocusChange::Leave
            } else {
                FocusChange::Keep
            }),
    {
        if in_input {
            self.package_popup_open = false;
            FocusChange::Leave
        } else {
            self.logs.clear_selection();
            FocusChange::Keep
        }
    }

    /// Selects every row that is shown.
    fn select_all_rows(&mut self)
        requires
            old(self).wf(),
        ensures
            final(self).wf(),
            old(self).logs.in_sync() ==> final(self).logs.in_sync(),
            final(self).all_selected_from(*old(self)),
    {
        self.follow_logs = false;
        self.logs.select_all();
    }

    /// Moves the selection.
    fn move_selection(&mut self, key: NavigationKey, extend: bool)
        requires
            old(self).wf(),
        ensures
            final(self).wf(),
            old(self).logs.in_sync() ==> final(self).logs.in_sync(),
            final(self).moved_from(*old(self), key, extend),
    {
        self.follow_logs = false;
        self.logs.navigate(key, extend);
        self.scroll_to_selected = true;
    }

    /// Answers a key. `in_input` says whether an input has or just had the focus.
    pub fn apply_shortcut(&mut self, shortcut: Shortcut, in_input: bool) -> (r: FocusChange)
        requires
            old(self).wf(),
        ensures
            final(self).wf(),
            old(self).logs.in_sync() ==> final(self).logs.in_sync(),
            final(self).after_key(*old(self), shortcut, in_input),
            r == (match shortcut {
                Shortcut::Find | Shortcut::Slash => FocusChange::Query,
                Shortcut::Escape => if in_input {
                    FocusChange::Leave
                } else {
                    FocusChange::Keep
                },
                _ => FocusChange::Keep,
            }),
    {
        match shortcut {
            Shortcut::Find => FocusChange::Query,
            Shortcut::Slash => FocusChange::Query,
            Shortcut::Escape => self.escape(in_input),
            Shortcut::Latest => {
                self.follow_latest();
                FocusChange::Keep
            },
            Shortcut::SelectAll => {
                self.select_all_rows();
                FocusChange::Keep
            },
            Shortcut::Navigate { key, extend } => {
                self.move_selection(key, extend);
                FocusChange::Keep
            },
        }
    }

    /// Returns to the newest entry and follows the log again.
    pub fn follow_latest(&mut self)
        ensures
            *final(self) == (Session {
                follow_logs: true,
                scroll_to_bottom: true,
                ..*old(self)
            }),
    {
        self.follow_logs = true;
        self.scroll_to_bottom = true;
    }

    /// Stops following the log while the user looks around in it.
    pub fn browse(&mut self)
        ensures
            *final(self) == (Session {
                follow_logs: false,
                scroll_to_bottom: false,
                scroll_to_selected: false,
                ..*old(self)
            }),
    {
        self.follow_logs = false;
        self.scroll_to_bottom = false;
        self.scroll_to_selected = false;
    }

    /// Where the table scrolls to in this frame.
    pub fn scroll_target(&self) -> (r: ScrollTarget)
        requires
            self.wf(),
        ensures
            match r {
                ScrollTarget::Bottom(place) => self.scroll_to_bottom && place + 1
                    == self.logs.matches@.len(),
                ScrollTarget::Row(place) => {
                    &&& !(self.scroll_to_bottom && self.logs.matches@.len() > 0)
                    &&& self.scroll_to_selected
                    &&& place < self.logs.matches@.len()
                    &&& self.logs.selected == Some(self.logs.matches@[place as int])
                },
                ScrollTarget::Stay => {
                    &&& self.scroll_to_bottom ==> self.logs.matches@.len() == 0
                    &&& self.scroll_to_selected ==> self.logs.selected is None
                },
            },
    {
        if self.scroll_to_bottom && self.logs.matches.len() > 0 {
            return ScrollTarget::Bottom(self.logs.matches.len() - 1);
        }
        if self.scroll_to_selected {
            if let Some(row) = self.logs.selected {
                if let Some(place) = find_row(self.logs.matches.as_slice(), row) {
                    return ScrollTarget::Row(place);
                }
            }
        }
        ScrollTarget::Stay
    }

    /// Ends a frame of the table, in which a row may have been clicked.
    pub fn end_table_frame(&mut self, clicked: Option<(usize, bool, bool)>)
        requires
            old(self).wf(),
        ensures
            final(self).wf(),
            old(self).logs.in_sync() ==> final(self).logs.in_sync(),
            match clicked {
                None => *final(self) == (Session {
                    scroll_to_bottom: false,
                    scroll_to_selected: false,
                    ..*old(self)
                }),
                Some((row, extend, toggle)) => {
                    &&& final(self).logs.selection.rows@ == selection::picked_rows(
                        old(self).logs.selection.rows@,
                        old(self).logs.selection.anchor,
                        old(self).logs.matches@,
                        row,
                        extend,
                        toggle,
                    )
                    &&& final(self).logs.selection.anchor == selection::picked_anchor(
                        old(self).logs.selection.anchor,
                        old(self).logs.matches@,
                        row,
                        extend,
                    )
                    &&& final(self).logs.selected == (
                    if final(self).logs.selection.rows@.contains(row) {
                        Some(row)
                    } else {
                        None::<usize>
                    })
                    &&& *final(self) == (Session {
                        scroll_to_bottom: false,
                        scroll_to_selected: true,
                        logs: logs::LogView {
                            selection: final(self).logs.selection,
                            selected: final(self).logs.selected,
                            ..old(self).logs
                        },
                        ..*old(self)
                    })
                },
            },
    {
        self.scroll_to_bottom = false;
        self.scroll_to_selected = false;
        if let Some((row, extend, toggle)) = clicked {
            self.logs.pick_row(row, extend, toggle);
            self.scroll_to_selected = true;
        }
    }

    /// Whether the key for copying is answered.
    pub fn allows_copy(&self, text_focused: bool, popup_open: bool) -> (r: bool)
        ensures
            r == (!self.show_save_filter && !text_focused && !popup_open),
    {
        !self.show_save_filter && !text_focused && !popup_open
    }

    /// What the key for copying copies: the selected entries in full, unless a text
    /// was copied already.
    pub fn copy_request(&self, requested: bool, already_copied: bool) -> (r: Option<String>)
        requires
            self.wf(),
        ensures
            r is Some <==> requested && !already_copied && !self.logs.selection.rows@.is_empty(),
            r matches Some(copied) ==> copied@ == selection::joined(
                selection::ascending(self.logs.selection.rows@),
                self.logs.entries@,
            ),
    {
        if requested && !already_copied && !self.logs.selection.is_empty() {
            Some(self.logs.copy_selected())
        } else {
            None
        }
    }

    /// What is shown in the place of an empty table.
    pub fn empty_message(&self) -> (r: &'static str)
        requires
            self.wf(),
        ensures
            r@ == empty_text(*self),
    {
        if self.logs.filter_pending || self.logs.filter_dirty {
            "Filtering logs…"
        } else if self.logs.filter_error.is_some() {
            "Invalid regular expression. Correct the query or turn off .* ."
        } else if !self.logs.entries.is_empty() {
            "No matching logs. Check the package, minimum level and message filter."
        } else {
            match &self.capture.state {
                CaptureState::NoAdb =>
                    "Install Android platform-tools, then click Refresh to find ADB.",
                CaptureState::WaitingForDevice =>
                    "Connect and authorize an Android device, then select it above.",
                CaptureState::Error(_) => "Capture stopped. Click Retry to resume.",
                CaptureState::Paused => "采集已暂停。点击开启继续接收最新日志。",
                _ => "Waiting for logs from the selected device…",
            }
        }
    }

    /// The text of the device box.
    pub fn device_label(&self) -> (r: String)
        ensures
            r@ == device_text(*self),
    {
        if let Some(serial) = &self.capture.selected_device {
            let ghost all = self.capture.devices@;
            let mut i: usize = 0;
            proof {
                assert(all.skip(0) =~= all);
            }
            while i < self.capture.devices.len()
                invariant
                    i <= all.len(),
                    all == self.capture.devices@,
                    self.capture.selected_device == Some(*serial),
                    device_named(all, serial@) == device_named(all.skip(i as int), serial@),
                decreases all.len() - i,
            {
                let device = &self.capture.devices[i];
                proof {
                    assert(all.skip(i as int)[0] == device);
                    assert(all.skip(i as int).drop_first() =~= all.skip(i + 1));
                }
                if equal(device.serial.as_str(), serial.as_str()) {
                    return device.display_name();
                }
                i += 1;
            }
        }
        if !self.capture.has_usable_device() {
            "无设备".to_owned()
        } else {
            "选择设备".to_owned()
        }
    }

    /// The chosen buffers on their button.
    pub fn buffer_summary(&self) -> (r: String)
        ensures
            r@ == joined_names(self.capture.buffers@),
    {
        let buffers = &self.capture.buffers;
        let mut out = String::new();
        let mut i: usize = 0;
        proof {
            assert(out@ =~= joined_names(buffers@.take(0)));
        }
        while i < buffers.len()
            invariant
                i <= buffers@.len(),
                out@ == joined_names(buffers@.take(i as int)),
            decreases buffers@.len() - i,
        {
            if i > 0 {
                out.append("+");
            }
            out.append(buffers[i].name());
            proof {
                let longer = buffers@.take(i + 1);
                assert(longer.drop_last() =~= buffers@.take(i as int));
                assert(out@ =~= joined_names(longer));
            }
            i += 1;
        }
        assert(buffers@.take(i as int) =~= buffers@);
        out
    }

    /// The packages that are offered for what was typed, in their order.
    pub fn package_suggestions(&self) -> (r: Vec<&str>)
        ensures
            text::views(r@) == text::texts(self.capture.packages@).filter(
                offered_for(self.logs.package@),
            ),
    {
        let ghost all = text::texts(self.capture.packages@);
        let ghost keep = offered_for(self.logs.package@);
        let mut out: Vec<&str> = Vec::new();
        let mut i: usize = 0;
        proof {
            assert(text::views(out@) =~= all.take(0).filter(keep)) by {
                reveal(Seq::filter);
            }
        }
        while i < self.capture.packages.len()
            invariant
                i <= self.capture.packages@.len(),
                all == text::texts(self.capture.packages@),
                keep == offered_for(self.logs.package@),
                text::views(out@) == all.take(i as int).filter(keep),
            decreases self.capture.packages@.len() - i,
        {
            let package = self.capture.packages[i].as_str();
            let ghost before = out@;
            proof {
                model::lemma_filter_step(all, keep, i as int);
                assert(all[i as int] == package@);
                assert(text::views(before.push(package)) =~= text::views(before).push(package@));
            }
            if package_matches_search(package, self.logs.package.as_str()) {
                out.push(package);
            }
            i += 1;
        }
        assert(all.take(i as int) =~= all);
        out
    }

    /// What is said about the filter.
    pub fn filter_status(&self) -> (r: FilterStatus)
        ensures
            r == (if self.logs.filter_error is Some {
                FilterStatus::Failed
            } else if self.logs.filter_pending || self.logs.filter_dirty {
                FilterStatus::Busy
            } else {
                FilterStatus::Done
            }),
    {
        if self.logs.filter_error.is_some() {
            FilterStatus::Failed
        } else if self.logs.filter_pending || self.logs.filter_dirty {
            FilterStatus::Busy
        } else {
            FilterStatus::Done
        }
    }

    /// The entry whose details are shown: the selected one, unless details are
    /// switched off.
    pub fn detailed_entry(&self) -> (r: Option<&LogEntry>)
        requires
            self.wf(),
        ensures
            r is Some <==> self.show_details && self.logs.selected is Some,
            r matches Some(entry) ==> {
                &&& self.logs.selected->0 < self.logs.entries@.len()
                &&& *entry == self.logs.entries@[self.logs.selected->0 as int]
            },
    {
        if self.show_details {
            self.logs.selected_entry()
        } else {
            None
        }
    }

    /// The number of rows that are shown.
    pub fn match_label(&self) -> (r: String)
        ensures
            r@ == crate::render::grouped(
                crate::render::digits(self.logs.matches@.len()),
                0,
            ) + " matches"@,
    {
        let mut out = format_count(self.logs.matches.len());
        out.append(" matches");
        out
    }

    /// How many entries had to go, behind the number of entries; nothing where none
    /// had to.
    pub fn dropped_label(&self) -> (r: String)
        ensures
            r@ == (if self.logs.dropped_entries > 0 {
                " · "@ + crate::render::grouped(
                    crate::render::digits(self.logs.dropped_entries as nat),
                    0,
                ) + " dropped"@
            } else {
                seq![]
            }),
    {
        if self.logs.dropped_entries > 0 {
            let mut out = " · ".to_owned();
            out.append(format_count(self.logs.dropped_entries).as_str());
            out.append(" dropped");
            out
        } else {
            let out = String::new();
            assert(out@ =~= seq![]);
            out
        }
    }

    /// Whether the filter is to be started, so many milliseconds after the last
    /// change of its settings.
    pub fn filter_due(&self, millis: u64) -> (r: bool)
        ensures
            r == (self.logs.filter_dirty && millis >= FILTER_DEBOUNCE_MILLIS),
            r == (self.logs.filter_dirty && millis >= 120),
    {
        self.logs.filter_dirty && millis >= FILTER_DEBOUNCE_MILLIS
    }

    /// Whether the settings are to be kept, so many milliseconds after their last
    /// change.
    pub fn config_due(&self, millis: u64) -> (r: bool)
        ensures
            r == (self.config_dirty && millis >= CONFIG_SAVE_MILLIS),
            r == (self.config_dirty && millis >= 600),
    {
        self.config_dirty && millis >= CONFIG_SAVE_MILLIS
    }

    /// The entries that came in since the rate was last taken, once its time is
    /// over.
    pub fn take_rate_count(&mut self, millis: u64) -> (r: Option<usize>)
        requires
            old(self).wf(),
        ensures
            final(self).wf(),
            old(self).logs.in_sync() ==> final(self).logs.in_sync(),
            r is Some <==> millis >= 1000,
            r == (if millis >= RATE_WINDOW_MILLIS {
                Some(old(self).logs.logs_in_rate_window)
            } else {
                None::<usize>
            }),
            final(self).logs == (if millis >= RATE_WINDOW_MILLIS {
                logs::LogView { logs_in_rate_window: 0, ..old(self).logs }
            } else {
                old(self).logs
            }),
            *final(self) == (Session { logs: final(self).logs, ..*old(self) }),
    {
        if millis < RATE_WINDOW_MILLIS {
            return None;
        }
        let count = self.logs.logs_in_rate_window;
        self.logs.logs_in_rate_window = 0;
        Some(count)
    }
}

/// No key changes the log, its filter, the capture or the settings: what is shown
/// and what was typed stay, only what is selected and where the table stands move.
pub proof fn lemma_keys_keep_the_filter(
    before: Session,
    after: Session,
    shortcut: Shortcut,
    in_input: bool,
)
    requires
        after.after_key(before, shortcut, in_input),
    ensures
        after.reselected(before),
        after.capture == before.capture,
        after.saved_filters == before.saved_filters,
        after.config_dirty == before.config_dirty,
{
}

/// A frame goes on exactly while it has taken in fewer than 2048 events and less than four
/// milliseconds are over. It asks for another one where its time is over, or with its
/// last event.
pub proof fn lemma_frame_limits(processed: int, millis: u64)
    ensures
        next_step(processed, millis) is Take <==> processed < 2048 && millis < 4,
        processed < 2048 && millis >= 4 ==> next_step(processed, millis) == (DrainStep::Stop {
            repaint: true,
        }),
        processed >= 2048 ==> next_step(processed, millis) == (DrainStep::Stop { repaint: false }),
        processed < 2048 && millis < 4 ==> next_step(processed, millis) == (DrainStep::Take {
            repaint: processed == 2047,
        }),
{
}

/// A frame whose time does not run out takes in all the events that wait, up to 2048.
pub proof fn lemma_frame_takes_what_waits(waiting: int, clock: spec_fn(int) -> u64, from: int)
    requires
        0 <= from <= waiting,
        from <= 2048,
        forall|i: int| #[trigger] clock(i) < 4,
    ensures
        frame(waiting, clock, from).0 == (if waiting < 2048 {
            waiting
        } else {
            2048
        }),
    decreases 2048 - from,
{
    if from < 2048 {
        assert(clock(from) < 4);
        if from < waiting {
            lemma_frame_takes_what_waits(waiting, clock, from + 1);
        }
    }
}

/// The names of buffers are joined by plus signs, between any two of them.
pub proof fn lemma_names_join(first: Seq<LogBuffer>, second: Seq<LogBuffer>)
    requires
        first.len() > 0,
        second.len() > 0,
    ensures
        joined_names(first + second) == joined_names(first) + "+"@ + joined_names(second),
        first.len() == 1 ==> joined_names(first) == model::buffer_name(first[0]),
    decreases second.len(),
{
    let all = first + second;
    if second.len() == 1 {
        assert(all.drop_last() =~= first);
        assert(all.last() == second[0]);
    } else {
        let shorter = second.drop_last();
        lemma_names_join(first, shorter);
        assert(all.drop_last() =~= first + shorter);
        assert(all.last() == second.last());
        assert(joined_names(all) =~= joined_names(first) + "+"@ + joined_names(second));
    }
}

/// The device box: the name of the first device with the chosen serial, if there is one;
/// else that one is to be chosen, if one can be used, or that there is none.
pub proof fn lemma_device_box(session: Session, i: int)
    requires
        0 <= i <= session.capture.devices@.len(),
        forall|j: int|
            0 <= j < i && session.capture.selected_device is Some ==> (
            #[trigger] session.capture.devices@[j]).serial@ != session.capture.selected_device->0@,
    ensures
        i < session.capture.devices@.len() && session.capture.selected_device is Some
            && session.capture.devices@[i].serial@ == session.capture.selected_device->0@
            ==> device_text(session) == session.capture.devices@[i].shown_name(),
        i == session.capture.devices@.len() || session.capture.selected_device is None ==> {
            &&& (exists|j: int|
                0 <= j < session.capture.devices@.len() && (#[trigger] session.capture.devices@[j]).state@
                    == "device"@) ==> device_text(session) == "选择设备"@
            &&& !(exists|j: int|
                0 <= j < session.capture.devices@.len() && (#[trigger] session.capture.devices@[j]).state@
                    == "device"@) ==> device_text(session) == "无设备"@
        },
{
    if let Some(serial) = session.capture.selected_device {
        lemma_first_named(session.capture.devices@, serial@, i);
    }
    if exists|j: int|
        0 <= j < session.capture.devices@.len() && (#[trigger] session.capture.devices@[j]).state@
            == "device"@ {
        let j = choose|j: int|
            0 <= j < session.capture.devices@.len() && (
            #[trigger] session.capture.devices@[j]).state@ == "device"@;
        assert(session.capture.devices@[j].is_available());
    }
}

/// The first device with a serial.
proof fn lemma_first_named(devices: Seq<adb::DeviceInfo>, serial: Seq<char>, i: int)
    requires
        0 <= i <= devices.len(),
        forall|j: int| 0 <= j < i ==> (#[trigger] devices[j]).serial@ != serial,
    ensures
        i < devices.len() && devices[i].serial@ == serial ==> device_named(devices, serial) == Some(
            devices[i],
        ),
        i == devices.len() ==> device_named(devices, serial) is None,
    decreases i,
{
    if i > 0 {
        let rest = devices.drop_first();
        assert(devices[0].serial@ != serial);
        assert forall|j: int| 0 <= j < i - 1 implies (#[trigger] rest[j]).serial@ != serial by {
            assert(rest[j] == devices[j + 1]);
        }
        lemma_first_named(rest, serial, i - 1);
    }
}

/// What an empty table says: first of all that the filter works, then that it failed,
/// then that nothing of the log passes it, and only of an empty log what the capture
/// does.
pub proof fn lemma_empty_table(session: Session)
    ensures
        session.logs.filter_pending || session.logs.filter_dirty ==> empty_text(session)
            == "Filtering logs…"@,
        !session.logs.filter_pending && !session.logs.filter_dirty ==> {
            &&& session.logs.filter_error is Some ==> empty_text(session)
                == "Invalid regular expression. Correct the query or turn off .* ."@
            &&& session.logs.filter_error is None && session.logs.entries@.len() > 0 ==> empty_text(
                session,
            ) == "No matching logs. Check the package, minimum level and message filter."@
            &&& session.logs.filter_error is None && session.logs.entries@.len() == 0
                ==> empty_text(session) == (match session.capture.state.phase() {
                capture::CapturePhase::NoAdb =>
                    "Install Android platform-tools, then click Refresh to find ADB."@,
                capture::CapturePhase::WaitingForDevice =>
                    "Connect and authorize an Android device, then select it above."@,
                capture::CapturePhase::Error(_) => "Capture stopped. Click Retry to resume."@,
                capture::CapturePhase::Paused => "采集已暂停。点击开启继续接收最新日志。"@,
                _ => "Waiting for logs from the selected device…"@,
            })
        },
{
}

/// Which keys are answered: none while the dialog is open. While something is typed only
/// the way into the query and the way out; while a popup is open also the other way into
/// the query. Otherwise all.
pub proof fn lemma_answered_keys(
    session: Session,
    shortcut: Shortcut,
    text_focused: bool,
    popup_open: bool,
)
    ensures
        session.show_save_filter ==> !answered(session, shortcut, text_focused, popup_open),
        !session.show_save_filter && text_focused ==> (answered(
            session,
            shortcut,
            text_focused,
            popup_open,
        ) <==> shortcut == Shortcut::Find || shortcut == Shortcut::Escape),
        !session.show_save_filter && !text_focused && (popup_open || session.package_popup_open)
            ==> (answered(session, shortcut, text_focused, popup_open) <==> shortcut
            == Shortcut::Find || shortcut == Shortcut::Escape || shortcut == Shortcut::Slash),
        !session.show_save_filter && !text_focused && !popup_open && !session.package_popup_open
            ==> answered(session, shortcut, text_focused, popup_open),
{
}

/// What the keys do to the table: the selecting ones stop following the log, the key for
/// the latest entry follows it again, and the way out deselects everything, but only once
/// no input is used.
pub proof fn lemma_keys_and_following(
    before: Session,
    after: Session,
    shortcut: Shortcut,
    in_input: bool,
    row: usize,
)
    requires
        before.wf(),
        after.after_key(before, shortcut, in_input),
    ensures
        shortcut == Shortcut::Latest ==> after.follow_logs && after.scroll_to_bottom,
        shortcut == Shortcut::SelectAll ==> !after.follow_logs
            && (after.logs.selection.rows@.contains(row) <==> before.logs.matches@.contains(row)),
        shortcut == Shortcut::SelectAll && before.logs.matches@.len() > 0
            ==> after.logs.selection.anchor == Some(before.logs.matches@[0])
            && after.logs.selected is Some,
        shortcut is Navigate ==> !after.follow_logs && after.scroll_to_selected,
        shortcut matches Shortcut::Navigate { key, extend } ==> !extend ==> (after.logs.selected
            is Some ==> (after.logs.selection.rows@.contains(row) <==> after.logs.selected == Some(
            row,
        )) && after.logs.selection.anchor == after.logs.selected),
        shortcut == Shortcut::Escape && !in_input ==> !after.logs.selection.rows@.contains(row)
            && after.logs.selected is None && after.follow_logs == before.follow_logs,
        shortcut == Shortcut::Escape && in_input ==> !after.package_popup_open && after.logs
            == before.logs,
        shortcut == Shortcut::Find || shortcut == Shortcut::Slash ==> after == before,
{
    assert(before.logs.matches@.to_set().contains(row) <==> before.logs.matches@.contains(row));
    if let Shortcut::Navigate { key, extend } = shortcut {
        selection::lemma_navigation_stays_visible(before.logs.matches@, before.logs.selected, key);
    }
}

} // verus!
