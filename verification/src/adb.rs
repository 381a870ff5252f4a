//! What is asked of the Android Debug Bridge, and how its replies are read.

use std::collections::HashMap;

use vstd::prelude::*;

use crate::render::parse_number;
use crate::text::{
    comes_before, contains_char, equal, is_blank, is_empty, split_lines, split_words, starts_with,
    strip_prefix, trim,
};
use crate::text;

verus! {

// ---------------------------------------------------------------------------
// Devices
// ---------------------------------------------------------------------------

/// A device as the bridge lists it.
#[derive(Debug, Eq, PartialEq)]
pub struct DeviceInfo {
    pub serial: String,
    pub state: String,
    pub model: Option<String>,
    pub transport: &'static str,
}

impl Clone for DeviceInfo {
    fn clone(&self) -> (r: DeviceInfo)
        ensures
            r == *self,
    {
        DeviceInfo {
            serial: self.serial.clone(),
            state: self.state.clone(),
            model: match &self.model {
                Some(model) => Some(model.clone()),
                None => None,
            },
            transport: self.transport,
        }
    }
}

/// The texts of a device.
pub struct DeviceText {
    pub serial: Seq<char>,
    pub state: Seq<char>,
    pub model: Option<Seq<char>>,
    pub transport: Seq<char>,
}

/// A text with blanks for its underscores.
pub open spec fn without_underscores(s: Seq<char>) -> Seq<char> {
    s.map_values(
        |c: char|
            if c == '_' {
                ' '
            } else {
                c
            },
    )
}

/// A text with blanks for its underscores.
fn replace_underscores(s: &str) -> (r: String)
    ensures
        r@ == without_underscores(s@),
{
    let all = crate::text::chars_of(s);
    let mut out = String::new();
    let mut i: usize = 0;
    while i < all.len()
        invariant
            i <= all@.len(),
            all@ == s@,
            out@ == without_underscores(s@.take(i as int)),
        decreases all@.len() - i,
    {
        let c = all[i];
        out.push(
            if c == '_' {
                ' '
            } else {
                c
            },
        );
        i += 1;
        assert(out@ =~= without_underscores(s@.take(i as int)));
    }
    assert(s@.take(i as int) =~= s@);
    out
}

impl DeviceInfo {
    /// The texts of the device.
    pub open spec fn texts(self) -> DeviceText {
        DeviceText {
            serial: self.serial@,
            state: self.state@,
            model: match self.model {
                Some(model) => Some(model@),
                None => None,
            },
            transport: self.transport@,
        }
    }

    /// Whether the device can be used.
    pub open spec fn is_available(self) -> bool {
        self.state@ == "device"@
    }

    /// The name that the device is shown under.
    pub open spec fn shown_name(self) -> Seq<char> {
        without_underscores(
            match self.model {
                Some(model) => model@,
                None => self.serial@,
            },
        ) + " · "@ + if self.is_available() {
            self.transport@
        } else {
            self.state@
        }
    }

    pub fn available(&self) -> (r: bool)
        ensures
            r == self.is_available(),
    {
        equal(self.state.as_str(), "device")
    }

    pub fn display_name(&self) -> (r: String)
        ensures
            r@ == self.shown_name(),
    {
        let mut name = match &self.model {
            Some(model) => replace_underscores(model.as_str()),
            None => replace_underscores(self.serial.as_str()),
        };
        name.append(" · ");
        if self.available() {
            name.append(self.transport);
        } else {
            name.append(self.state.as_str());
        }
        name
    }
}

/// The model that the fields of a device line name.
pub open spec fn model_in(fields: Seq<Seq<char>>) -> Option<Seq<char>>
    decreases fields.len(),
{
    if fields.len() == 0 {
        None
    } else if text::begins_with(fields[0], "model:"@) {
        Some(fields[0].skip("model:"@.len() as int))
    } else {
        model_in(fields.drop_first())
    }
}

/// How a device is connected, by its serial.
pub open spec fn transport_of(serial: Seq<char>) -> Seq<char> {
    if text::begins_with(serial, "emulator-"@) {
        "Emulator"@
    } else if serial.contains(':') {
        "Wi-Fi"@
    } else {
        "USB"@
    }
}

/// The device that a line of the list describes.
pub open spec fn device_on(line: Seq<char>) -> Option<DeviceText> {
    let t = text::trimmed(line);
    let fields = text::words(t);
    if t.len() == 0 || text::begins_with(t, "List of devices"@) || text::begins_with(t, "*"@)
        || fields.len() < 2 {
        None
    } else {
        Some(
            DeviceText {
                serial: fields[0],
                state: fields[1],
                model: model_in(fields.skip(2)),
                transport: transport_of(fields[0]),
            },
        )
    }
}

/// The devices that lines describe, in order.
pub open spec fn devices_on(lines: Seq<Seq<char>>) -> Seq<DeviceText>
    decreases lines.len(),
{
    if lines.len() == 0 {
        seq![]
    } else {
        let before = devices_on(lines.drop_last());
        match device_on(lines.last()) {
            Some(device) => before.push(device),
            None => before,
        }
    }
}

/// The texts of devices.
pub open spec fn device_texts(devices: Seq<DeviceInfo>) -> Seq<DeviceText> {
    devices.map_values(|device: DeviceInfo| device.texts())
}

/// The model among the fields from `from` on.
fn find_model(fields: &Vec<&str>, from: usize) -> (r: Option<String>)
    requires
        from <= fields@.len(),
    ensures
        match r {
            Some(model) => model_in(text::views(fields@).skip(from as int)) == Some(model@),
            None => model_in(text::views(fields@).skip(from as int)) is None,
        },
{
    let ghost all = text::views(fields@);
    let mut i: usize = from;
    while i < fields.len()
        invariant
            from <= i <= fields@.len(),
            all == text::views(fields@),
            model_in(all.skip(from as int)) == model_in(all.skip(i as int)),
        decreases fields@.len() - i,
    {
        proof {
            assert(all.skip(i as int)[0] == fields@[i as int]@);
            assert(all.skip(i as int).drop_first() =~= all.skip(i + 1));
        }
        if let Some(model) = strip_prefix(fields[i], "model:") {
            return Some(model.to_owned());
        }
        i += 1;
    }
    None
}

/// The device that a line of the list describes.
fn parse_device(line: &str) -> (r: Option<DeviceInfo>)
    ensures
        match r {
            Some(device) => device_on(line@) == Some(device.texts()),
            None => device_on(line@) is None,
        },
{
    let line = trim(line);
    if is_empty(line) || starts_with(line, "List of devices") || starts_with(line, "*") {
        return None;
    }
    let fields = split_words(line);
    let ghost words = text::views(fields@);
    if fields.len() < 2 {
        assert(words.len() == fields@.len());
        return None;
    }
    let serial = fields[0].to_owned();
    let state = fields[1].to_owned();
    let model = find_model(&fields, 2);
    let transport: &'static str = if starts_with(fields[0], "emulator-") {
        "Emulator"
    } else if contains_char(fields[0], ':') {
        "Wi-Fi"
    } else {
        "USB"
    };
    proof {
        assert(words[0] == fields@[0]@);
        assert(words[1] == fields@[1]@);
    }
    Some(DeviceInfo { serial, state, model, transport })
}

/// Reads the list of devices.
pub fn parse_devices(output: &str) -> (r: Vec<DeviceInfo>)
    ensures
        device_texts(r@) == devices_on(text::lines(output@)),
{
    let lines = split_lines(output);
    let ghost all = text::views(lines@);
    let mut devices: Vec<DeviceInfo> = Vec::new();
    let mut i: usize = 0;
    proof {
        assert(device_texts(devices@) =~= devices_on(all.take(0)));
    }
    while i < lines.len()
        invariant
            i <= lines@.len(),
            all == text::views(lines@),
            device_texts(devices@) == devices_on(all.take(i as int)),
        decreases lines@.len() - i,
    {
        let ghost before = devices@;
        proof {
            assert(all.take(i + 1).drop_last() =~= all.take(i as int));
            assert(all.take(i + 1).last() == lines@[i as int]@);
        }
        if let Some(device) = parse_device(lines[i]) {
            proof {
                assert(device_texts(before.push(device)) =~= device_texts(before).push(
                    device.texts(),
                ));
            }
            devices.push(device);
        }
        i += 1;
    }
    assert(all.take(i as int) =~= all);
    devices
}

// ---------------------------------------------------------------------------
// Packages
// ---------------------------------------------------------------------------

/// The package that a line of the list names.
pub open spec fn package_on(line: Seq<char>) -> Option<Seq<char>> {
    let t = text::trimmed(line);
    let fields = text::words(t.skip("package:"@.len() as int));
    if text::begins_with(t, "package:"@) && fields.len() > 0 {
        Some(fields[0])
    } else {
        None
    }
}

/// The packages that lines name.
pub open spec fn packages_on(lines: Seq<Seq<char>>) -> Set<Seq<char>> {
    Set::new(|name: Seq<char>| exists|i: int|
        0 <= i < lines.len() && package_on(#[trigger] lines[i]) == Some(name))
}

/// Names in order, each once.
pub open spec fn ordered(names: Seq<Seq<char>>) -> bool {
    forall|i: int, j: int| 0 <= i < j < names.len() ==> text::precedes(names[i], names[j])
}

/// Puts a name in its place among ordered names, unless it is there.
fn insert_name(names: &mut Vec<String>, name: String)
    requires
        ordered(text::texts(old(names)@)),
    ensures
        ordered(text::texts(final(names)@)),
        forall|n: Seq<char>| #[trigger]
            text::texts(final(names)@).contains(n) <==> text::texts(old(names)@).contains(n) || n
                == name@,
{
    let ghost before = text::texts(names@);
    let mut i: usize = 0;
    while i < names.len() && comes_before(names[i].as_str(), name.as_str())
        invariant
            i <= names@.len(),
            before == text::texts(names@),
            forall|j: int| 0 <= j < i ==> text::precedes(#[trigger] before[j], name@),
        decreases names@.len() - i,
    {
        assert(before[i as int] == names@[i as int]@);
        i += 1;
    }
    if i < names.len() && equal(names[i].as_str(), name.as_str()) {
        assert(before[i as int] == name@);
        return;
    }
    let ghost text = name@;
    let ghost place = i as int;
    names.insert(i, name);
    proof {
        let after = text::texts(names@);
        assert(after =~= before.insert(place, text));
        if place < before.len() {
            text::lemma_precedes_total(before[place], text);
        }
        assert forall|a: int, b: int| 0 <= a < b < after.len() implies text::precedes(
            after[a],
            after[b],
        ) by {
            if a == place {
                if b - 1 > place {
                    text::lemma_precedes_transitive(text, before[place], before[b - 1]);
                }
            } else if b == place {
                assert(text::precedes(before[a], text));
            }
        }
        assert forall|n: Seq<char>| #[trigger] after.contains(n) <==> before.contains(n) || n
            == text by {
            if before.contains(n) {
                let k = choose|k: int| 0 <= k < before.len() && before[k] == n;
                assert(after[if k < place {
                    k
                } else {
                    k + 1
                }] == n);
            }
            if n == text {
                assert(after[place] == n);
            }
            if after.contains(n) {
                let k = choose|k: int| 0 <= k < after.len() && after[k] == n;
                if k != place {
                    assert(before[if k < place {
                        k
                    } else {
                        k - 1
                    }] == n);
                }
            }
        }
    }
}

/// The package that a line of the list names.
fn parse_package(line: &str) -> (r: Option<&str>)
    ensures
        match r {
            Some(name) => package_on(line@) == Some(name@),
            None => package_on(line@) is None,
        },
{
    match strip_prefix(trim(line), "package:") {
        None => None,
        Some(rest) => {
            let fields = split_words(rest);
            let ghost words = text::views(fields@);
            if fields.len() == 0 {
                assert(words.len() == 0);
                None
            } else {
                assert(words[0] == fields@[0]@);
                Some(fields[0])
            }
        },
    }
}

/// Reads the list of packages: in order, each once.
pub fn parse_packages(output: &str) -> (r: Vec<String>)
    ensures
        ordered(text::texts(r@)),
        text::texts(r@).to_set() == packages_on(text::lines(output@)),
{
    let lines = split_lines(output);
    let ghost all = text::views(lines@);
    let mut packages: Vec<String> = Vec::new();
    let mut i: usize = 0;
    while i < lines.len()
        invariant
            i <= lines@.len(),
            all == text::views(lines@),
            ordered(text::texts(packages@)),
            forall|n: Seq<char>| #[trigger]
                text::texts(packages@).contains(n) <==> exists|k: int|
                    0 <= k < i && package_on(#[trigger] all[k]) == Some(n),
        decreases lines@.len() - i,
    {
        let ghost before = text::texts(packages@);
        assert(all[i as int] == lines@[i as int]@);
        if let Some(name) = parse_package(lines[i]) {
            insert_name(&mut packages, name.to_owned());
        }
        proof {
            let after = text::texts(packages@);
            assert forall|n: Seq<char>| #[trigger] after.contains(n) <==> exists|k: int|
                0 <= k < i + 1 && package_on(#[trigger] all[k]) == Some(n) by {
                if before.contains(n) {
                    let k = choose|k: int| 0 <= k < i && package_on(#[trigger] all[k]) == Some(n);
                    assert(0 <= k < i + 1 && package_on(all[k]) == Some(n));
                }
                if package_on(all[i as int]) == Some(n) {
                    assert(after.contains(n));
                }
            }
        }
        i += 1;
    }
    proof {
        let found = text::texts(packages@);
        assert forall|n: Seq<char>| found.to_set().contains(n) <==> #[trigger] packages_on(
            all,
        ).contains(n) by {
            assert(found.to_set().contains(n) <==> found.contains(n));
        }
        assert(found.to_set() =~= packages_on(all));
    }
    packages
}

// ---------------------------------------------------------------------------
// Processes
// ---------------------------------------------------------------------------

/// The place of the first column with one of the given titles.
pub open spec fn column_of(columns: Seq<Seq<char>>, titles: Seq<Seq<char>>) -> Option<nat>
    decreases columns.len(),
{
    if columns.len() == 0 {
        None
    } else if titles.contains(columns[0]) {
        Some(0)
    } else {
        match column_of(columns.drop_first(), titles) {
            Some(place) => Some(place + 1),
            None => None,
        }
    }
}

/// The titles of the column with the names.
pub open spec fn name_titles() -> Seq<Seq<char>> {
    seq!["NAME"@, "CMDLINE"@, "ARGS"@]
}

/// The lines from the first on that is not blank.
pub open spec fn from_header(lines: Seq<Seq<char>>) -> Seq<Seq<char>>
    decreases lines.len(),
{
    if lines.len() > 0 && text::blank(lines[0]) {
        from_header(lines.drop_first())
    } else {
        lines
    }
}

/// The process that a row of the table describes.
pub open spec fn process_on(line: Seq<char>, pid_column: int, name_column: int) -> Option<
    (u32, Seq<char>),
> {
    let values = text::words(line);
    if pid_column < values.len() && name_column < values.len() {
        match crate::render::number(values[pid_column]) {
            Some(pid) => Some((pid, values[name_column])),
            None => None,
        }
    } else {
        None
    }
}

/// The processes that rows describe; of two rows for one id the later counts.
pub open spec fn processes_on(
    rows: Seq<Seq<char>>,
    pid_column: int,
    name_column: int,
) -> Map<u32, Seq<char>>
    decreases rows.len(),
{
    if rows.len() == 0 {
        Map::empty()
    } else {
        let before = processes_on(rows.drop_last(), pid_column, name_column);
        match process_on(rows.last(), pid_column, name_column) {
            Some((pid, name)) => before.insert(pid, name),
            None => before,
        }
    }
}

/// The processes of a table whose first line that is not blank holds the titles.
/// Without a column for the names the last one is taken.
pub open spec fn process_table(lines: Seq<Seq<char>>) -> Map<u32, Seq<char>> {
    let table = from_header(lines);
    let columns = text::words(table[0]);
    let pid_column = column_of(columns, seq!["PID"@]);
    let name_column = match column_of(columns, name_titles()) {
        Some(place) => place as int,
        None => columns.len() - 1,
    };
    if table.len() == 0 {
        Map::empty()
    } else {
        match pid_column {
            Some(place) => processes_on(table.drop_first(), place as int, name_column),
            None => Map::empty(),
        }
    }
}

/// The texts of a table of owned names.
pub open spec fn table_texts(table: Map<u32, String>) -> Map<u32, Seq<char>> {
    table.map_values(|name: String| name@)
}

/// The place of a column, by whether each title is one of those looked for.
fn find_column(columns: &Vec<&str>, pid: bool) -> (r: Option<usize>)
    ensures
        match r {
            Some(place) => column_of(
                text::views(columns@),
                if pid {
                    seq!["PID"@]
                } else {
                    name_titles()
                },
            ) == Some(place as nat) && place < columns@.len(),
            None => column_of(
                text::views(columns@),
                if pid {
                    seq!["PID"@]
                } else {
                    name_titles()
                },
            ) is None,
        },
{
    let ghost all = text::views(columns@);
    let ghost titles = if pid {
        seq!["PID"@]
    } else {
        name_titles()
    };
    let mut i: usize = 0;
    proof {
        assert(all.skip(0) =~= all);
    }
    while i < columns.len()
        invariant
            i <= columns@.len(),
            all == text::views(columns@),
            titles == (if pid {
                seq!["PID"@]
            } else {
                name_titles()
            }),
            column_of(all, titles) == (match column_of(all.skip(i as int), titles) {
                Some(place) => Some((place + i) as nat),
                None => None::<nat>,
            }),
        decreases columns@.len() - i,
    {
        let title = columns[i];
        let found = if pid {
            equal(title, "PID")
        } else {
            equal(title, "NAME") || equal(title, "CMDLINE") || equal(title, "ARGS")
        };
        proof {
            assert(all.skip(i as int)[0] == title@);
            assert(all.skip(i as int).drop_first() =~= all.skip(i + 1));
            assert(found <==> titles.contains(title@)) by {
                if pid {
                    assert(titles[0] == "PID"@);
                } else {
                    assert(titles[0] == "NAME"@ && titles[1] == "CMDLINE"@ && titles[2] == "ARGS"@);
                }
            }
        }
        if found {
            return Some(i);
        }
        i += 1;
    }
    None
}

/// Reads a table of processes.
pub fn parse_processes(output: &str) -> (r: HashMap<u32, String>)
    ensures
        table_texts(r@) == process_table(text::lines(output@)),
{
    let lines = split_lines(output);
    let ghost all = text::views(lines@);
    let mut start: usize = 0;
    proof {
        assert(all.skip(0) =~= all);
    }
    while start < lines.len() && is_blank(lines[start])
        invariant
            start <= lines@.len(),
            all == text::views(lines@),
            from_header(all) == from_header(all.skip(start as int)),
        decreases lines@.len() - start,
    {
        proof {
            assert(all.skip(start as int)[0] == lines@[start as int]@);
            assert(all.skip(start as int).drop_first() =~= all.skip(start + 1));
        }
        start += 1;
    }
    let mut table: HashMap<u32, String> = HashMap::new();
    proof {
        assert(table_texts(table@) =~= Map::<u32, Seq<char>>::empty());
        if start < lines.len() {
            assert(all.skip(start as int)[0] == lines@[start as int]@);
        }
        assert(from_header(all) == all.skip(start as int));
    }
    if start == lines.len() {
        return table;
    }
    let columns = split_words(lines[start]);
    let pid_column: usize = match find_column(&columns, true) {
        None => {
            return table;
        },
        Some(place) => place,
    };
    let name_column: usize = match find_column(&columns, false) {
        Some(place) => place,
        None => columns.len() - 1,
    };
    let ghost rows = all.skip(start + 1);
    let mut i: usize = start + 1;
    proof {
        assert(all.skip(start as int).drop_first() =~= rows);
        assert(rows.take(0) =~= seq![]);
        assert(text::views(columns@).len() == columns@.len());
    }
    while i < lines.len()
        invariant
            start < i <= lines@.len(),
            all == text::views(lines@),
            rows == all.skip(start + 1),
            table_texts(table@) == processes_on(
                rows.take(i - start - 1),
                pid_column as int,
                name_column as int,
            ),
        decreases lines@.len() - i,
    {
        let ghost n = i - start - 1;
        let ghost before = table@;
        let values = split_words(lines[i]);
        proof {
            assert(rows[n] == lines@[i as int]@);
            assert(rows.take(n + 1).drop_last() =~= rows.take(n));
            assert(rows.take(n + 1).last() == rows[n]);
            assert(text::views(values@).len() == values@.len());
        }
        if pid_column < values.len() && name_column < values.len() {
            proof {
                assert(text::views(values@)[pid_column as int] == values@[pid_column as int]@);
                assert(text::views(values@)[name_column as int] == values@[name_column as int]@);
            }
            if let Some(pid) = parse_number(values[pid_column]) {
                let name = values[name_column].to_owned();
                proof {
                    assert(table_texts(before.insert(pid, name)) =~= table_texts(before).insert(
                        pid,
                        name@,
                    ));
                }
                table.insert(pid, name);
            }
        }
        i += 1;
    }
    assert(rows.take(i - start - 1) =~= rows);
    table
}

// ---------------------------------------------------------------------------
// What holds of every reply
// ---------------------------------------------------------------------------

/// Whether a text is one word.
pub open spec fn one_word(s: Seq<char>) -> bool {
    s.len() > 0 && forall|i: int| 0 <= i < s.len() ==> !text::white_space(#[trigger] s[i])
}

/// Whether what follows a word is set off from it, and does not end in white space.
pub open spec fn set_off(rest: Seq<char>) -> bool {
    rest.len() > 0 ==> text::white_space(rest[0]) && !text::white_space(rest.last())
}

/// A line with a serial, a state and more is read as the device with these; white space
/// around it does not matter. How it is connected is told by the serial.
pub proof fn lemma_device_line(
    lead: Seq<char>,
    serial: Seq<char>,
    gap: Seq<char>,
    state: Seq<char>,
    rest: Seq<char>,
    end: Seq<char>,
)
    requires
        text::blank(lead),
        text::blank(end),
        one_word(serial),
        text::blank(gap) && gap.len() > 0,
        one_word(state),
        set_off(rest),
        !text::begins_with(serial + gap + state + rest, "List of devices"@),
        serial[0] != '*',
    ensures
        device_on(lead + (serial + gap + state + rest) + end) matches Some(device) && device.serial
            == serial && device.state == state && device.model == model_in(text::words(rest))
            && device.transport == (if text::begins_with(serial, "emulator-"@) {
            "Emulator"@
        } else if serial.contains(':') {
            "Wi-Fi"@
        } else {
            "USB"@
        }),
{
    let core = serial + gap + state + rest;
    assert(core[0] == serial[0]);
    if rest.len() > 0 {
        assert(core.last() == rest.last());
    } else {
        assert(core.last() == state.last());
    }
    text::lemma_trim_takes_the_ends(lead, core, end);
    let more = gap + state + rest;
    assert(seq![] + serial + more =~= core);
    assert(more[0] == gap[0]);
    text::lemma_words(seq![], serial, more);
    text::lemma_words(gap, state, rest);
    let fields = text::words(core);
    assert(fields =~= seq![serial, state] + text::words(rest));
    assert(fields.skip(2) =~= text::words(rest));
    reveal_strlit("*");
    if text::begins_with(core, "*"@) {
        assert(core.take(1)[0] == "*"@[0]);
    }
}

/// The title line, the messages of the bridge's daemon and lines with fewer than two
/// words describe no device.
pub proof fn lemma_no_device_line(line: Seq<char>)
    ensures
        text::begins_with(text::trimmed(line), "List of devices"@) ==> device_on(line) is None,
        text::begins_with(text::trimmed(line), "*"@) ==> device_on(line) is None,
        text::blank(line) ==> device_on(line) is None,
        text::words(text::trimmed(line)).len() < 2 ==> device_on(line) is None,
{
    text::lemma_trimmed(line);
}

/// The model of a device is told by the first field that begins with its label.
pub proof fn lemma_model_field(fields: Seq<Seq<char>>, i: int, name: Seq<char>)
    requires
        forall|j: int| 0 <= j < i && j < fields.len() ==> !text::begins_with(
            #[trigger] fields[j],
            "model:"@,
        ),
        0 <= i <= fields.len(),
    ensures
        i < fields.len() && fields[i] == "model:"@ + name ==> model_in(fields) == Some(name),
        i == fields.len() ==> model_in(fields) is None,
    decreases i,
{
    if i > 0 {
        let rest = fields.drop_first();
        assert(!text::begins_with(fields[0], "model:"@));
        assert forall|j: int| 0 <= j < i - 1 && j < rest.len() implies !text::begins_with(
            #[trigger] rest[j],
            "model:"@,
        ) by {
            assert(rest[j] == fields[j + 1]);
        }
        lemma_model_field(rest, i - 1, name);
    } else if fields.len() > 0 && fields[0] == "model:"@ + name {
        let n = "model:"@.len() as int;
        assert(fields[0].take(n) =~= "model:"@);
        assert(fields[0].skip(n) =~= name);
    }
}

/// The devices of a list are those of its parts, in order.
pub proof fn lemma_devices_of_parts(first: Seq<Seq<char>>, second: Seq<Seq<char>>)
    ensures
        devices_on(first + second) == devices_on(first) + devices_on(second),
        first.len() == 1 ==> match device_on(first[0]) {
            Some(device) => devices_on(first) == seq![device],
            None => devices_on(first).len() == 0,
        },
    decreases second.len(),
{
    if second.len() == 0 {
        assert(first + second =~= first);
        assert(devices_on(first) + devices_on(second) =~= devices_on(first));
    } else {
        let shorter = second.drop_last();
        lemma_devices_of_parts(first, shorter);
        assert((first + second).drop_last() =~= first + shorter);
        assert((first + second).last() == second.last());
        assert(devices_on(first + second) =~= devices_on(first) + devices_on(second));
    }
    if first.len() == 1 {
        assert(first.drop_last() =~= seq![]);
        assert(devices_on(first.drop_last()) =~= seq![]);
    }
}

/// The name of a device: its model, or else its serial, with blanks for underscores; then
/// how it is connected, or for one that cannot be used its state.
pub proof fn lemma_name_of_a_device(device: DeviceInfo, i: int)
    ensures
        ({
            let name = match device.model {
                Some(model) => model@,
                None => device.serial@,
            };
            let shown = device.shown_name();
            let n = name.len() as int;
            let tail = if device.state@ == "device"@ {
                device.transport@
            } else {
                device.state@
            };
            &&& shown.skip(n) == " · "@ + tail
            &&& 0 <= i < n ==> shown[i] == (if name[i] == '_' {
                ' '
            } else {
                name[i]
            })
        }),
{
    let name = match device.model {
        Some(model) => model@,
        None => device.serial@,
    };
    let tail = if device.state@ == "device"@ {
        device.transport@
    } else {
        device.state@
    };
    assert(device.shown_name().skip(name.len() as int) =~= " · "@ + tail);
}

/// A line with the label and a name is read as that package; white space around it and
/// what follows the name do not matter. A line without the label names none.
pub proof fn lemma_package_line(
    lead: Seq<char>,
    name: Seq<char>,
    rest: Seq<char>,
    end: Seq<char>,
    other: Seq<char>,
)
    requires
        text::blank(lead),
        text::blank(end),
        one_word(name),
        set_off(rest),
    ensures
        package_on(lead + ("package:"@ + name + rest) + end) == Some(name),
        !text::begins_with(text::trimmed(other), "package:"@) ==> package_on(other) is None,
{
    let label = "package:"@;
    reveal_strlit("package:");
    let core = label + name + rest;
    let n = label.len() as int;
    assert(core[0] == 'p');
    if rest.len() > 0 {
        assert(core.last() == rest.last());
    } else {
        assert(core.last() == name.last());
    }
    text::lemma_trim_takes_the_ends(lead, core, end);
    assert(core.take(n) =~= label);
    assert(core.skip(n) =~= seq![] + name + rest);
    text::lemma_words(seq![], name, rest);
}

/// The place of a column is that of the first title that is one of those looked for.
pub proof fn lemma_first_column(columns: Seq<Seq<char>>, titles: Seq<Seq<char>>)
    ensures
        match column_of(columns, titles) {
            Some(place) => place < columns.len() && titles.contains(columns[place as int])
                && forall|j: int| 0 <= j < place ==> !titles.contains(#[trigger] columns[j]),
            None => forall|j: int| 0 <= j < columns.len() ==> !titles.contains(
                #[trigger] columns[j],
            ),
        },
    decreases columns.len(),
{
    if columns.len() > 0 && !titles.contains(columns[0]) {
        let rest = columns.drop_first();
        lemma_first_column(rest, titles);
        let end = match column_of(columns, titles) {
            Some(place) => place as int,
            None => columns.len() as int,
        };
        assert forall|j: int| 0 <= j < end implies !titles.contains(#[trigger] columns[j]) by {
            if j > 0 {
                assert(rest[j - 1] == columns[j]);
            }
        }
    }
}

/// A table of processes: blank lines before it do not matter. Its first line tells which
/// column holds the ids, and which the names, by one of three titles; without such a
/// title it is the last.
pub proof fn lemma_columns_of_a_table(
    lead: Seq<Seq<char>>,
    header: Seq<char>,
    rows: Seq<Seq<char>>,
    pid_column: int,
    name_column: int,
)
    requires
        forall|i: int| 0 <= i < lead.len() ==> text::blank(#[trigger] lead[i]),
        !text::blank(header),
        ({
            let columns = text::words(header);
            &&& 0 <= pid_column < columns.len()
            &&& columns[pid_column] == "PID"@
            &&& forall|j: int| 0 <= j < pid_column ==> #[trigger] columns[j] != "PID"@
            &&& 0 <= name_column < columns.len()
            &&& forall|j: int|
                0 <= j < name_column ==> #[trigger] columns[j] != "NAME"@ && columns[j]
                    != "CMDLINE"@ && columns[j] != "ARGS"@
            &&& columns[name_column] == "NAME"@ || columns[name_column] == "CMDLINE"@
                || columns[name_column] == "ARGS"@ || name_column == columns.len() - 1
        }),
    ensures
        process_table(lead + seq![header] + rows) == processes_on(rows, pid_column, name_column),
{
    let columns = text::words(header);
    let table = seq![header] + rows;
    assert(lead + seq![header] + rows =~= lead + table);
    lemma_header_after_blanks(lead, table);
    assert(table[0] == header);
    assert(table.drop_first() =~= rows);
    let pids = seq!["PID"@];
    assert(pids[0] == "PID"@);
    lemma_first_column(columns, pids);
    let names = name_titles();
    assert(names[0] == "NAME"@ && names[1] == "CMDLINE"@ && names[2] == "ARGS"@);
    lemma_first_column(columns, names);
    if let Some(place) = column_of(columns, pids) {
        if place < pid_column {
            assert(columns[place as int] != "PID"@);
        }
    }
    if let Some(place) = column_of(columns, names) {
        if place < name_column {
            assert(columns[place as int] != "NAME"@);
        }
    }
}

/// Blank lines before a table are passed over.
proof fn lemma_header_after_blanks(lead: Seq<Seq<char>>, table: Seq<Seq<char>>)
    requires
        forall|i: int| 0 <= i < lead.len() ==> text::blank(#[trigger] lead[i]),
        table.len() > 0,
        !text::blank(table[0]),
    ensures
        from_header(lead + table) == table,
    decreases lead.len(),
{
    let all = lead + table;
    if lead.len() == 0 {
        assert(all =~= table);
    } else {
        let rest = lead.drop_first();
        assert(text::blank(all[0])) by {
            assert(all[0] == lead[0]);
        }
        assert(all.drop_first() =~= rest + table);
        assert forall|i: int| 0 <= i < rest.len() implies text::blank(#[trigger] rest[i]) by {
            assert(rest[i] == lead[i + 1]);
        }
        lemma_header_after_blanks(rest, table);
    }
}

/// A table without the column of the ids, or without a line that is not blank, names no
/// process.
pub proof fn lemma_no_table(lines: Seq<Seq<char>>, header: Seq<char>, rows: Seq<Seq<char>>)
    requires
        forall|i: int| 0 <= i < lines.len() ==> text::blank(#[trigger] lines[i]),
        !text::blank(header),
        !text::words(header).contains("PID"@),
    ensures
        process_table(lines) == Map::<u32, Seq<char>>::empty(),
        process_table(lines + seq![header] + rows) == Map::<u32, Seq<char>>::empty(),
    decreases lines.len(),
{
    let table = seq![header] + rows;
    assert(lines + seq![header] + rows =~= lines + table);
    lemma_header_after_blanks(lines, table);
    let columns = text::words(header);
    lemma_first_column(columns, seq!["PID"@]);
    if let Some(place) = column_of(columns, seq!["PID"@]) {
        assert(columns.contains(columns[place as int]));
    }
    lemma_all_blank(lines);
}

/// Of blank lines nothing is left.
proof fn lemma_all_blank(lines: Seq<Seq<char>>)
    requires
        forall|i: int| 0 <= i < lines.len() ==> text::blank(#[trigger] lines[i]),
    ensures
        from_header(lines).len() == 0,
    decreases lines.len(),
{
    if lines.len() > 0 {
        let rest = lines.drop_first();
        assert(text::blank(lines[0]));
        assert forall|i: int| 0 <= i < rest.len() implies text::blank(#[trigger] rest[i]) by {
            assert(rest[i] == lines[i + 1]);
        }
        lemma_all_blank(rest);
    }
}

/// The name of a process is that of the last row with its id, and a process without a
/// row is not in the table.
pub proof fn lemma_last_row_counts(
    rows: Seq<Seq<char>>,
    pid_column: int,
    name_column: int,
    i: int,
    pid: u32,
)
    requires
        -1 <= i < rows.len(),
        forall|j: int|
            i < j < rows.len() ==> (process_on(#[trigger] rows[j], pid_column, name_column) matches Some(
                process,
            ) ==> process.0 != pid),
    ensures
        i == -1 ==> !processes_on(rows, pid_column, name_column).contains_key(pid),
        i >= 0 ==> (process_on(rows[i], pid_column, name_column) matches Some(process) ==> process.0
            == pid ==> processes_on(rows, pid_column, name_column).contains_key(pid)
            && processes_on(rows, pid_column, name_column)[pid] == process.1),
    decreases rows.len(),
{
    if rows.len() > 0 && i < rows.len() - 1 {
        let before = rows.drop_last();
        assert(process_on(rows[rows.len() - 1], pid_column, name_column) matches Some(process)
            ==> process.0 != pid);
        assert forall|j: int|
            i < j < before.len() implies (process_on(
            #[trigger] before[j],
            pid_column,
            name_column,
        ) matches Some(process) ==> process.0 != pid) by {
            assert(before[j] == rows[j]);
        }
        lemma_last_row_counts(before, pid_column, name_column, i, pid);
    }
}

/// A row describes a process where it has both columns and the first is a number: its id
/// and its name are the words that stand there.
pub proof fn lemma_process_row(line: Seq<char>, pid_column: int, name_column: int)
    requires
        0 <= pid_column,
        0 <= name_column,
    ensures
        ({
            let values = text::words(line);
            if pid_column < values.len() && name_column < values.len() {
                match crate::render::number(values[pid_column]) {
                    Some(pid) => process_on(line, pid_column, name_column) == Some(
                        (pid, values[name_column]),
                    ),
                    None => process_on(line, pid_column, name_column) is None,
                }
            } else {
                process_on(line, pid_column, name_column) is None
            }
        }),
{
}

/// The packages of a list are exactly those that its lines name.
pub proof fn lemma_packages_of_lines(lines: Seq<Seq<char>>, i: int, name: Seq<char>)
    ensures
        0 <= i < lines.len() && package_on(lines[i]) == Some(name) ==> packages_on(lines).contains(
            name,
        ),
        packages_on(lines).contains(name) ==> exists|k: int|
            0 <= k < lines.len() && package_on(#[trigger] lines[k]) == Some(name),
{
}

} // verus!
