//! The names of processes: which entries wait for one, and how they get it.

use std::collections::HashMap;
use std::sync::Arc;

use vstd::prelude::*;

use crate::log_store::LogStore;
use crate::model::LogEntry;
use crate::{log_store, model, selection};

verus! {

// ---------------------------------------------------------------------------
// Entries that wait for the name of their process
// ---------------------------------------------------------------------------

/// Whether an entry's process could be named and is not.
pub open spec fn nameless(entry: LogEntry) -> bool {
    entry.pid != 0 && entry.process is None
}

/// The rows among the first `n` of a process that are nameless, in order.
pub open spec fn nameless_rows(entries: Seq<LogEntry>, pid: u32, n: int) -> Seq<usize>
    decreases n,
{
    if n <= 0 {
        seq![]
    } else if nameless(entries[n - 1]) && entries[n - 1].pid == pid {
        nameless_rows(entries, pid, n - 1).push((n - 1) as usize)
    } else {
        nameless_rows(entries, pid, n - 1)
    }
}

/// The rows that wait for the name of a process.
pub open spec fn waiting(unresolved: Map<u32, Vec<usize>>, pid: u32) -> Seq<usize> {
    if unresolved.contains_key(pid) {
        unresolved[pid]@
    } else {
        seq![]
    }
}

/// Whether exactly the processes with waiting rows are listed.
pub open spec fn none_idle(unresolved: Map<u32, Vec<usize>>) -> bool {
    forall|pid: u32| #[trigger]
        unresolved.contains_key(pid) ==> waiting(unresolved, pid).len() > 0
}

/// Every waiting row is a nameless entry of its process, and waits once; no process is
/// listed for which none waits.
pub open spec fn waiting_ok(unresolved: Map<u32, Vec<usize>>, entries: Seq<LogEntry>) -> bool {
    &&& none_idle(unresolved)
    &&& forall|pid: u32|
        {
            &&& selection::increasing(#[trigger] waiting(unresolved, pid))
            &&& forall|k: int|
                0 <= k < waiting(unresolved, pid).len() ==> {
                    let row = #[trigger] waiting(unresolved, pid)[k];
                    row < entries.len() && nameless(entries[row as int]) && entries[row as int].pid
                        == pid
                }
        }
}

/// Lets a row wait for the name of a process.
pub fn wait_for(unresolved: &mut HashMap<u32, Vec<usize>>, pid: u32, row: usize)
    ensures
        forall|p: u32| #[trigger]
            waiting(final(unresolved)@, p) == (if p == pid {
                waiting(old(unresolved)@, p).push(row)
            } else {
                waiting(old(unresolved)@, p)
            }),
        final(unresolved)@.dom() == old(unresolved)@.dom().insert(pid),
{
    let mut rows: Vec<usize> = match unresolved.remove(&pid) {
        Some(rows) => rows,
        None => Vec::new(),
    };
    rows.push(row);
    unresolved.insert(pid, rows);
}

/// The rows that wait for names in a log that has just been cut.
pub fn collect_nameless(entries: &LogStore) -> (r: HashMap<u32, Vec<usize>>)
    requires
        entries.wf(),
    ensures
        forall|pid: u32| #[trigger]
            waiting(r@, pid) == nameless_rows(entries@, pid, entries@.len() as int),
        none_idle(r@),
{
    let mut unresolved: HashMap<u32, Vec<usize>> = HashMap::new();
    let mut i: usize = 0;
    while i < entries.len()
        invariant
            i <= entries@.len(),
            entries.wf(),
            forall|pid: u32| #[trigger]
                waiting(unresolved@, pid) == nameless_rows(entries@, pid, i as int),
            none_idle(unresolved@),
        decreases entries@.len() - i,
    {
        let entry = entries.get(i);
        if entry.pid != 0 && entry.process.is_none() {
            wait_for(&mut unresolved, entry.pid, i);
        }
        i += 1;
    }
    unresolved
}

/// Nameless rows are what they say.
pub proof fn lemma_nameless_rows(entries: Seq<LogEntry>, pid: u32, n: int)
    requires
        0 <= n <= entries.len() <= usize::MAX,
    ensures
        selection::increasing(nameless_rows(entries, pid, n)),
        forall|k: int|
            0 <= k < nameless_rows(entries, pid, n).len() ==> {
                let row = #[trigger] nameless_rows(entries, pid, n)[k];
                row < n && nameless(entries[row as int]) && entries[row as int].pid == pid
            },
    decreases n,
{
    if n > 0 {
        lemma_nameless_rows(entries, pid, n - 1);
    }
}

// ---------------------------------------------------------------------------
// Naming processes
// ---------------------------------------------------------------------------

/// Whether shared names are the names of a process table.
pub open spec fn same_names(names: Map<u32, Arc<str>>, table: Map<u32, String>) -> bool {
    &&& names.dom() == table.dom()
    &&& forall|pid: u32| #[trigger] names.contains_key(pid) ==> names[pid]@ == table[pid]@
}

/// Whether a row waits for a name that is known now.
pub open spec fn can_be_named(
    entries: Seq<LogEntry>,
    unresolved: Map<u32, Vec<usize>>,
    names: Map<u32, Arc<str>>,
    row: int,
) -> bool {
    &&& names.contains_key(entries[row].pid)
    &&& waiting(unresolved, entries[row].pid).contains(row as usize)
}

/// The entries once the waiting rows of known processes are named.
pub open spec fn resolved(
    entries: Seq<LogEntry>,
    unresolved: Map<u32, Vec<usize>>,
    names: Map<u32, Arc<str>>,
) -> Seq<LogEntry> {
    Seq::new(
        entries.len(),
        |row: int|
            if can_be_named(entries, unresolved, names, row) {
                entries[row].with_process(names[entries[row].pid])
            } else {
                entries[row]
            },
    )
}

/// The process ids of a table, in some order.
pub fn pids_of(table: &HashMap<u32, String>) -> (r: Vec<u32>)
    ensures
        r@.no_duplicates(),
        r@.to_set() == table@.dom(),
{
    let mut pids: Vec<u32> = Vec::new();
    let ghost order = vstd::std_specs::iter::IteratorSpec::remaining(
        &vstd::std_specs::hash::spec_keys_iter(table),
    );
    for pid in it: table.keys()
        invariant
            it.seq() == order,
            pids@.len() == it.index(),
            forall|k: int| 0 <= k < pids@.len() ==> pids@[k] == *(#[trigger] order[k]),
    {
        pids.push(*pid);
    }
    proof {
        assert(pids@ =~= order.unref());
        assert(pids@.to_set() =~= table@.dom());
        assert forall|i: int, j: int|
            0 <= i < pids@.len() && 0 <= j < pids@.len() && i != j implies pids@[i] != pids@[j] by {
            assert(*order[i] == pids@[i] && *order[j] == pids@[j]);
        }
    }
    pids
}

/// The shared names of a table.
pub fn share_names(table: &HashMap<u32, String>) -> (r: HashMap<u32, Arc<str>>)
    ensures
        same_names(r@, table@),
{
    let pids = pids_of(table);
    let mut names: HashMap<u32, Arc<str>> = HashMap::new();
    let mut i: usize = 0;
    while i < pids.len()
        invariant
            i <= pids@.len(),
            pids@.to_set() == table@.dom(),
            forall|pid: u32| #[trigger]
                names@.contains_key(pid) <==> exists|k: int| 0 <= k < i && pids@[k] == pid,
            forall|pid: u32| #[trigger]
                names@.contains_key(pid) ==> names@[pid]@ == table@[pid]@,
        decreases pids@.len() - i,
    {
        let pid = pids[i];
        assert(pids@.to_set().contains(pid));
        let ghost before = names@;
        if let Some(name) = table.get(&pid) {
            let shared: Arc<str> = Arc::from(name.as_str());
            names.insert(pid, shared);
        }
        proof {
            assert forall|p: u32| #[trigger] names@.contains_key(p) <==> exists|k: int|
                0 <= k < i + 1 && pids@[k] == p by {
                if p == pid {
                    assert(pids@[i as int] == p);
                } else if before.contains_key(p) {
                    let k = choose|k: int| 0 <= k < i && pids@[k] == p;
                    assert(0 <= k < i + 1 && pids@[k] == p);
                }
            }
        }
        i += 1;
    }
    proof {
        assert forall|pid: u32| names@.contains_key(pid) <==> #[trigger] table@.contains_key(
            pid,
        ) by {
            if table@.contains_key(pid) {
                assert(pids@.to_set().contains(pid));
            }
            if names@.contains_key(pid) {
                let k = choose|k: int| 0 <= k < i && pids@[k] == pid;
                assert(pids@.to_set().contains(pids@[k]));
            }
        }
        assert(names@.dom() =~= table@.dom());
    }
    names
}

/// Whether a row with a name comes from the waiting rows of one of the first `n`
/// processes.
pub open spec fn has_source(
    item: (usize, Arc<str>),
    unresolved: Map<u32, Vec<usize>>,
    names: Map<u32, Arc<str>>,
    pids: Seq<u32>,
    n: int,
) -> bool {
    exists|i: int|
        0 <= i < n && waiting(unresolved, #[trigger] pids[i]).contains(item.0) && item.1
            == names[pids[i]]
}

/// Whether a row is in a list of rows and names.
pub open spec fn listed(list: Seq<(usize, Arc<str>)>, row: usize) -> bool {
    exists|j: int| 0 <= j < list.len() && (#[trigger] list[j]).0 == row
}

/// Whether a list of rows and names holds exactly the waiting rows of the first
/// `n` processes, each with its name.
pub open spec fn named_list(
    list: Seq<(usize, Arc<str>)>,
    unresolved: Map<u32, Vec<usize>>,
    names: Map<u32, Arc<str>>,
    pids: Seq<u32>,
    n: int,
) -> bool {
    &&& forall|j: int|
        0 <= j < list.len() ==> has_source(#[trigger] list[j], unresolved, names, pids, n)
    &&& forall|i: int, k: int|
        0 <= i < n && 0 <= k < waiting(unresolved, pids[i]).len() ==> #[trigger] listed(
            list,
            waiting(unresolved, pids[i])[k],
        )
}

/// A list for some processes, extended by the rows of one more, is a list for all
/// of them.
proof fn lemma_named_list_grows(
    before: Seq<(usize, Arc<str>)>,
    after: Seq<(usize, Arc<str>)>,
    unresolved: Map<u32, Vec<usize>>,
    names: Map<u32, Arc<str>>,
    pids: Seq<u32>,
    n: int,
)
    requires
        0 <= n < pids.len(),
        named_list(before, unresolved, names, pids, n),
        after.len() == before.len() + waiting(unresolved, pids[n]).len(),
        forall|j: int| 0 <= j < before.len() ==> after[j] == before[j],
        forall|j: int|
            before.len() <= j < after.len() ==> (#[trigger] after[j]).0 == waiting(
                unresolved,
                pids[n],
            )[j - before.len()] && after[j].1 == names[pids[n]],
    ensures
        named_list(after, unresolved, names, pids, n + 1),
{
    assert forall|j: int| 0 <= j < after.len() implies has_source(
        #[trigger] after[j],
        unresolved,
        names,
        pids,
        n + 1,
    ) by {
        if j < before.len() {
            assert(has_source(before[j], unresolved, names, pids, n));
            let i = choose|i: int|
                0 <= i < n && waiting(unresolved, #[trigger] pids[i]).contains(before[j].0)
                    && before[j].1 == names[pids[i]];
            assert(waiting(unresolved, pids[i]).contains(after[j].0));
        } else {
            assert(waiting(unresolved, pids[n]).contains(after[j].0));
        }
    }
    assert forall|i: int, k: int|
        0 <= i < n + 1 && 0 <= k < waiting(unresolved, pids[i]).len() implies #[trigger] listed(
        after,
        waiting(unresolved, pids[i])[k],
    ) by {
        let row = waiting(unresolved, pids[i])[k];
        if i < n {
            assert(listed(before, row));
            let j = choose|j: int| 0 <= j < before.len() && (#[trigger] before[j]).0 == row;
            assert(after[j].0 == row);
        } else {
            assert(after[before.len() + k].0 == row);
        }
    }
}

/// Adds rows with the name of their process to a list.
fn add_named(list: &mut Vec<(usize, Arc<str>)>, rows: &Vec<usize>, name: &Arc<str>)
    ensures
        final(list)@.len() == old(list)@.len() + rows@.len(),
        forall|j: int| 0 <= j < old(list)@.len() ==> final(list)@[j] == old(list)@[j],
        forall|j: int|
            old(list)@.len() <= j < final(list)@.len() ==> (#[trigger] final(list)@[j]).0
                == rows@[j - old(list)@.len()] && final(list)@[j].1 == *name,
{
    let ghost before = list@;
    let mut k: usize = 0;
    while k < rows.len()
        invariant
            k <= rows@.len(),
            list@.len() == before.len() + k,
            forall|j: int| 0 <= j < before.len() ==> list@[j] == before[j],
            forall|j: int|
                before.len() <= j < list@.len() ==> (#[trigger] list@[j]).0 == rows@[j
                    - before.len()] && list@[j].1 == *name,
        decreases rows@.len() - k,
    {
        list.push((rows[k], name.clone()));
        k += 1;
    }
}

/// Takes the rows that can be named now out of those that wait.
pub fn take_named(
    unresolved: &mut HashMap<u32, Vec<usize>>,
    names: &HashMap<u32, Arc<str>>,
    pids: &Vec<u32>,
) -> (r: (Vec<(usize, Arc<str>)>, bool))
    requires
        pids@.no_duplicates(),
        pids@.to_set() == names@.dom(),
    ensures
        named_list(r.0@, old(unresolved)@, names@, pids@, pids@.len() as int),
        r.1 <==> exists|pid: u32|
            #[trigger] names@.contains_key(pid) && old(unresolved)@.contains_key(pid),
        forall|pid: u32| #[trigger]
            waiting(final(unresolved)@, pid) == (if names@.contains_key(pid) {
                seq![]
            } else {
                waiting(old(unresolved)@, pid)
            }),
        final(unresolved)@.dom() == old(unresolved)@.dom().difference(names@.dom()),
{
    let ghost start = unresolved@;
    let mut list: Vec<(usize, Arc<str>)> = Vec::new();
    let mut any = false;
    let mut i: usize = 0;
    while i < pids.len()
        invariant
            i <= pids@.len(),
            pids@.no_duplicates(),
            pids@.to_set() == names@.dom(),
            named_list(list@, start, names@, pids@, i as int),
            any <==> exists|k: int| 0 <= k < i && start.contains_key(#[trigger] pids@[k]),
            forall|pid: u32| #[trigger]
                unresolved@.contains_key(pid) <==> start.contains_key(pid) && !pids@.take(
                    i as int,
                ).contains(pid),
            forall|pid: u32| #[trigger]
                unresolved@.contains_key(pid) ==> unresolved@[pid] == start[pid],
        decreases pids@.len() - i,
    {
        let pid = pids[i];
        assert(pids@.to_set().contains(pid));
        let ghost earlier = pids@.take(i as int);
        let ghost later = pids@.take(i + 1);
        let ghost held = unresolved@;
        let ghost had = any;
        proof {
            assert(!earlier.contains(pid)) by {
                if earlier.contains(pid) {
                    let k = choose|k: int| 0 <= k < earlier.len() && earlier[k] == pid;
                    assert(pids@[k] == pids@[i as int]);
                }
            }
            assert forall|p: u32| later.contains(p) <==> earlier.contains(p) || p == pid by {
                if later.contains(p) {
                    let k = choose|k: int| 0 <= k < later.len() && later[k] == p;
                    if k < i {
                        assert(earlier[k] == p);
                    }
                }
                if earlier.contains(p) {
                    let k = choose|k: int| 0 <= k < earlier.len() && earlier[k] == p;
                    assert(later[k] == p);
                }
                if p == pid {
                    assert(later[i as int] == p);
                }
            }
        }
        let name = names.get(&pid);
        let taken = unresolved.remove(&pid);
        match (taken, name) {
            (Some(rows), Some(name)) => {
                any = true;
                let ghost before = list@;
                add_named(&mut list, &rows, name);
                proof {
                    lemma_named_list_grows(before, list@, start, names@, pids@, i as int);
                    assert(start.contains_key(pids@[i as int]));
                }
            },
            _ => {
                proof {
                    assert(!start.contains_key(pid));
                    lemma_named_list_grows(list@, list@, start, names@, pids@, i as int);
                }
            },
        }
        proof {
            if had {
                let k = choose|k: int| 0 <= k < i && start.contains_key(#[trigger] pids@[k]);
                assert(0 <= k < i + 1 && start.contains_key(pids@[k]));
            }
        }
        i += 1;
    }
    proof {
        assert(pids@.take(i as int) =~= pids@);
        assert forall|pid: u32| pids@.contains(pid) <==> #[trigger] names@.contains_key(pid) by {
            assert(pids@.to_set().contains(pid) <==> names@.dom().contains(pid));
        }
        if any {
            let k = choose|k: int| 0 <= k < i && start.contains_key(#[trigger] pids@[k]);
            assert(pids@.contains(pids@[k]));
            assert(names@.contains_key(pids@[k]));
        }
        if exists|pid: u32| #[trigger] names@.contains_key(pid) && start.contains_key(pid) {
            let pid = choose|pid: u32|
                #[trigger] names@.contains_key(pid) && start.contains_key(pid);
            assert(pids@.contains(pid));
            let k = choose|k: int| 0 <= k < pids@.len() && pids@[k] == pid;
            assert(start.contains_key(pids@[k]));
        }
    }
    (list, any)
}

/// The entries once the first `n` of a list of rows are named.
pub open spec fn applied(
    entries: Seq<LogEntry>,
    list: Seq<(usize, Arc<str>)>,
    n: int,
) -> Seq<LogEntry>
    decreases n,
{
    if n <= 0 {
        entries
    } else {
        let before = applied(entries, list, n - 1);
        let row = list[n - 1].0 as int;
        before.update(row, before[row].with_process(list[n - 1].1))
    }
}

/// Names the rows of a list.
pub fn name_rows(entries: &mut LogStore, list: &Vec<(usize, Arc<str>)>)
    requires
        old(entries).wf(),
        forall|j: int| 0 <= j < list@.len() ==> (#[trigger] list@[j]).0 < old(entries)@.len(),
        forall|j: int|
            0 <= j <= list@.len() ==> log_store::memory_of(
                #[trigger] applied(old(entries)@, list@, j),
                old(entries).lost(),
            ) <= usize::MAX,
    ensures
        final(entries).wf(),
        final(entries)@ == applied(old(entries)@, list@, list@.len() as int),
        final(entries).lost() == old(entries).lost(),
{
    let ghost base = entries@;
    let ghost lost = entries.lost();
    let mut i: usize = 0;
    while i < list.len()
        invariant
            i <= list@.len(),
            entries.wf(),
            entries.lost() == lost,
            entries@ == applied(base, list@, i as int),
            entries@.len() == base.len(),
            forall|j: int| 0 <= j < list@.len() ==> (#[trigger] list@[j]).0 < base.len(),
            forall|j: int|
                0 <= j <= list@.len() ==> log_store::memory_of(
                    #[trigger] applied(base, list@, j),
                    lost,
                ) <= usize::MAX,
        decreases list@.len() - i,
    {
        assert(list@[i as int].0 < base.len());
        assert(log_store::memory_of(applied(base, list@, i + 1), lost) <= usize::MAX);
        let item = &list[i];
        entries.set_process(item.0, item.1.clone());
        i += 1;
    }
}

/// What is named after `n` rows of a list: exactly those rows, each with the name
/// of its process.
proof fn lemma_applied(
    entries: Seq<LogEntry>,
    unresolved: Map<u32, Vec<usize>>,
    names: Map<u32, Arc<str>>,
    pids: Seq<u32>,
    list: Seq<(usize, Arc<str>)>,
    n: int,
)
    requires
        entries.len() <= usize::MAX,
        waiting_ok(unresolved, entries),
        named_list(list, unresolved, names, pids, pids.len() as int),
        0 <= n <= list.len(),
    ensures
        applied(entries, list, n).len() == entries.len(),
        forall|row: int| #![trigger applied(entries, list, n)[row]]
            0 <= row < entries.len() ==> applied(entries, list, n)[row] == (if listed(
                list.take(n),
                row as usize,
            ) {
                entries[row].with_process(names[entries[row].pid])
            } else {
                entries[row]
            }),
        n < list.len() ==> {
            let row = list[n].0 as int;
            row < entries.len() && nameless(entries[row]) && list[n].1
                == names[entries[row].pid]
        },
    decreases n,
{
    if n < list.len() {
        assert(has_source(list[n], unresolved, names, pids, pids.len() as int));
        let i = choose|i: int|
            0 <= i < pids.len() && waiting(unresolved, #[trigger] pids[i]).contains(list[n].0)
                && list[n].1 == names[pids[i]];
        let rows = waiting(unresolved, pids[i]);
        let k = choose|k: int| 0 <= k < rows.len() && rows[k] == list[n].0;
        assert(rows[k] == list[n].0);
    }
    if n > 0 {
        lemma_applied(entries, unresolved, names, pids, list, n - 1);
        let before = applied(entries, list, n - 1);
        let after = applied(entries, list, n);
        let last = list[n - 1].0;
        assert forall|row: int| 0 <= row < entries.len() implies #[trigger] after[row] == (
        if listed(list.take(n), row as usize) {
            entries[row].with_process(names[entries[row].pid])
        } else {
            entries[row]
        }) by {
            assert(before[row] == before[row]);
            if row == last {
                assert(list.take(n)[n - 1].0 == row as usize);
                assert(listed(list.take(n), row as usize));
            } else {
                if listed(list.take(n), row as usize) {
                    let j = choose|j: int|
                        0 <= j < n && (#[trigger] list.take(n)[j]).0 == row as usize;
                    assert(j != n - 1);
                    assert(list.take(n - 1)[j].0 == row as usize);
                }
                if listed(list.take(n - 1), row as usize) {
                    let j = choose|j: int|
                        0 <= j < n - 1 && (#[trigger] list.take(n - 1)[j]).0 == row as usize;
                    assert(list.take(n)[j].0 == row as usize);
                }
            }
        }
    } else {
        assert(list.take(0).len() == 0);
    }
}

/// Naming never makes an entry smaller, so no step needs more memory than the
/// last.
proof fn lemma_naming_grows(
    entries: Seq<LogEntry>,
    unresolved: Map<u32, Vec<usize>>,
    names: Map<u32, Arc<str>>,
    pids: Seq<u32>,
    list: Seq<(usize, Arc<str>)>,
    n: int,
)
    requires
        entries.len() <= usize::MAX,
        waiting_ok(unresolved, entries),
        named_list(list, unresolved, names, pids, pids.len() as int),
        0 <= n <= list.len(),
    ensures
        log_store::total_payload(applied(entries, list, n)) <= log_store::total_payload(
            applied(entries, list, list.len() as int),
        ),
    decreases list.len() - n,
{
    if n < list.len() {
        lemma_naming_grows(entries, unresolved, names, pids, list, n + 1);
        lemma_applied(entries, unresolved, names, pids, list, n);
        let before = applied(entries, list, n);
        let row = list[n].0 as int;
        let entry = before[row];
        log_store::lemma_payload_update(before, row, entry.with_process(list[n].1));
        assert(entry.payload() <= entry.with_process(list[n].1).payload());
    }
}

/// Naming the rows of a full list is naming every row that can be named, and no
/// step of it needs more memory than the result.
pub proof fn lemma_naming(
    entries: Seq<LogEntry>,
    lost: int,
    unresolved: Map<u32, Vec<usize>>,
    names: Map<u32, Arc<str>>,
    pids: Seq<u32>,
    list: Seq<(usize, Arc<str>)>,
)
    requires
        entries.len() <= usize::MAX,
        waiting_ok(unresolved, entries),
        named_list(list, unresolved, names, pids, pids.len() as int),
        pids.to_set() == names.dom(),
    ensures
        applied(entries, list, list.len() as int) == resolved(entries, unresolved, names),
        forall|j: int| 0 <= j < list.len() ==> (#[trigger] list[j]).0 < entries.len(),
        forall|j: int|
            0 <= j <= list.len() ==> log_store::memory_of(
                #[trigger] applied(entries, list, j),
                lost,
            ) <= log_store::memory_of(resolved(entries, unresolved, names), lost),
{
    let n = list.len() as int;
    let all = applied(entries, list, n);
    lemma_applied(entries, unresolved, names, pids, list, n);
    assert(list.take(n) =~= list);
    assert forall|row: int| 0 <= row < entries.len() implies #[trigger] all[row] == resolved(
        entries,
        unresolved,
        names,
    )[row] by {
        let pid = entries[row].pid;
        if listed(list, row as usize) {
            let j = choose|j: int| 0 <= j < list.len() && (#[trigger] list[j]).0 == row as usize;
            assert(has_source(list[j], unresolved, names, pids, pids.len() as int));
            let i = choose|i: int|
                0 <= i < pids.len() && waiting(unresolved, #[trigger] pids[i]).contains(list[j].0)
                    && list[j].1 == names[pids[i]];
            let rows = waiting(unresolved, pids[i]);
            let k = choose|k: int| 0 <= k < rows.len() && rows[k] == list[j].0;
            assert(rows[k] == row as usize);
            assert(pids.to_set().contains(pids[i]));
        }
        if can_be_named(entries, unresolved, names, row) {
            assert(pids.to_set().contains(pid));
            let i = choose|i: int| 0 <= i < pids.len() && pids[i] == pid;
            let rows = waiting(unresolved, pid);
            let k = choose|k: int| 0 <= k < rows.len() && rows[k] == row as usize;
            assert(listed(list, waiting(unresolved, pids[i])[k]));
        }
    }
    assert(all =~= resolved(entries, unresolved, names));
    assert forall|j: int| 0 <= j < list.len() implies (#[trigger] list[j]).0 < entries.len() by {
        lemma_applied(entries, unresolved, names, pids, list, j);
    }
    assert forall|j: int| 0 <= j <= list.len() implies log_store::memory_of(
        #[trigger] applied(entries, list, j),
        lost,
    ) <= log_store::memory_of(resolved(entries, unresolved, names), lost) by {
        lemma_applied(entries, unresolved, names, pids, list, j);
        lemma_naming_grows(entries, unresolved, names, pids, list, j);
    }
}

/// Whether a process with waiting rows is known now.
pub open spec fn any_named(unresolved: Map<u32, Vec<usize>>, names: Set<u32>) -> bool {
    exists|pid: u32| #[trigger] names.contains(pid) && waiting(unresolved, pid).len() > 0
}

/// The rows that are left waiting are still nameless entries of their processes.
pub proof fn lemma_still_waiting(
    entries: Seq<LogEntry>,
    unresolved: Map<u32, Vec<usize>>,
    names: Map<u32, Arc<str>>,
    left: Map<u32, Vec<usize>>,
)
    requires
        waiting_ok(unresolved, entries),
        forall|pid: u32| #[trigger]
            waiting(left, pid) == (if names.contains_key(pid) {
                seq![]
            } else {
                waiting(unresolved, pid)
            }),
        none_idle(left),
    ensures
        waiting_ok(left, resolved(entries, unresolved, names)),
{
    let after = resolved(entries, unresolved, names);
    assert forall|pid: u32|
        {
            &&& selection::increasing(#[trigger] waiting(left, pid))
            &&& forall|k: int|
                0 <= k < waiting(left, pid).len() ==> {
                    let row = #[trigger] waiting(left, pid)[k];
                    row < after.len() && nameless(after[row as int]) && after[row as int].pid == pid
                }
        } by {
        let rows = waiting(left, pid);
        if !names.contains_key(pid) {
            assert(rows == waiting(unresolved, pid));
            assert(selection::increasing(rows));
            assert forall|k: int| 0 <= k < rows.len() implies ({
                let row = #[trigger] rows[k];
                row < after.len() && nameless(after[row as int]) && after[row as int].pid == pid
            }) by {
                let row = waiting(unresolved, pid)[k];
                assert(entries[row as int].pid == pid);
            }
        }
    }
}

/// Where nothing is known of a waiting process, nothing is named.
pub proof fn lemma_nothing_named(
    entries: Seq<LogEntry>,
    unresolved: Map<u32, Vec<usize>>,
    names: Map<u32, Arc<str>>,
)
    requires
        !any_named(unresolved, names.dom()),
    ensures
        resolved(entries, unresolved, names) == entries,
{
    assert forall|row: int| 0 <= row < entries.len() implies !can_be_named(
        entries,
        unresolved,
        names,
        row,
    ) by {
        let pid = entries[row].pid;
        if names.contains_key(pid) {
            assert(names.dom().contains(pid));
            assert(waiting(unresolved, pid).len() == 0);
        }
    }
    assert(resolved(entries, unresolved, names) =~= entries);
}

// ---------------------------------------------------------------------------
// The bytes that names add
// ---------------------------------------------------------------------------

/// The bytes that the names of the first `n` processes of a table add to a log.
pub open spec fn added_bytes(
    unresolved: Map<u32, Vec<usize>>,
    table: Map<u32, String>,
    pids: Seq<u32>,
    n: int,
) -> int
    decreases n,
{
    if n <= 0 {
        0
    } else {
        added_bytes(unresolved, table, pids, n - 1) + waiting(unresolved, pids[n - 1]).len()
            * model::byte_len(table[pids[n - 1]]@)
    }
}

/// More processes never add fewer bytes.
proof fn lemma_added_bytes_grow(
    unresolved: Map<u32, Vec<usize>>,
    table: Map<u32, String>,
    pids: Seq<u32>,
    n: int,
    more: int,
)
    requires
        n <= more,
    ensures
        added_bytes(unresolved, table, pids, n) <= added_bytes(unresolved, table, pids, more),
    decreases more - n,
{
    if n < more && more > 0 {
        lemma_added_bytes_grow(unresolved, table, pids, n, more - 1);
        let (rows, bytes) = (
            waiting(unresolved, pids[more - 1]).len() as int,
            model::byte_len(table[pids[more - 1]]@) as int,
        );
        assert(rows * bytes >= 0) by (nonlinear_arith)
            requires
                rows >= 0,
                bytes >= 0,
        ;
    }
}

/// Rows that get one name.
pub open spec fn with_name(rows: Seq<usize>, name: Arc<str>) -> Seq<(usize, Arc<str>)> {
    rows.map_values(|row: usize| (row, name))
}

/// What naming the first `m` of some rows of one process comes to.
proof fn lemma_rows_named(base: Seq<LogEntry>, rows: Seq<usize>, name: Arc<str>, m: int)
    requires
        0 <= m <= rows.len(),
        selection::increasing(rows),
        forall|j: int|
            0 <= j < rows.len() ==> (#[trigger] rows[j]) < base.len() && base[rows[j] as int].process
                is None,
    ensures
        applied(base, with_name(rows, name), m).len() == base.len(),
        forall|row: int| #![trigger applied(base, with_name(rows, name), m)[row]]
            0 <= row < base.len() ==> applied(base, with_name(rows, name), m)[row] == (
            if exists|j: int| 0 <= j < m && #[trigger] rows[j] == row {
                base[row].with_process(name)
            } else {
                base[row]
            }),
        log_store::total_payload(applied(base, with_name(rows, name), m))
            == log_store::total_payload(base) + m * model::byte_len(name@),
    decreases m,
{
    let list = with_name(rows, name);
    if m > 0 {
        lemma_rows_named(base, rows, name, m - 1);
        let before = applied(base, list, m - 1);
        let after = applied(base, list, m);
        let last = rows[m - 1] as int;
        assert(list[m - 1] == (rows[m - 1], name));
        assert(before[last] == base[last]);
        log_store::lemma_payload_update(before, last, before[last].with_process(name));
        let bytes = model::byte_len(name@) as int;
        assert(m * bytes == (m - 1) * bytes + bytes) by (nonlinear_arith);
        assert forall|row: int| 0 <= row < base.len() implies #[trigger] after[row] == (
        if exists|j: int| 0 <= j < m && #[trigger] rows[j] == row {
            base[row].with_process(name)
        } else {
            base[row]
        }) by {
            assert(before[row] == before[row]);
            if row == last {
                assert(rows[m - 1] == row);
            } else if exists|j: int| 0 <= j < m && #[trigger] rows[j] == row {
                let j = choose|j: int| 0 <= j < m && #[trigger] rows[j] == row;
                assert(0 <= j < m - 1 && rows[j] == row);
            }
        }
    } else {
        assert(0 * model::byte_len(name@) == 0);
    }
}

/// The names of the first `n` processes.
pub open spec fn names_of(names: Map<u32, Arc<str>>, pids: Seq<u32>, n: int) -> Map<u32, Arc<str>> {
    names.restrict(pids.take(n).to_set())
}

/// Naming the processes of a table adds the bytes of their names.
proof fn lemma_added_bytes(
    entries: Seq<LogEntry>,
    unresolved: Map<u32, Vec<usize>>,
    names: Map<u32, Arc<str>>,
    table: Map<u32, String>,
    pids: Seq<u32>,
    n: int,
)
    requires
        entries.len() <= usize::MAX,
        waiting_ok(unresolved, entries),
        same_names(names, table),
        pids.no_duplicates(),
        pids.to_set() == table.dom(),
        0 <= n <= pids.len(),
    ensures
        log_store::total_payload(resolved(entries, unresolved, names_of(names, pids, n)))
            == log_store::total_payload(entries) + added_bytes(unresolved, table, pids, n),
    decreases n,
{
    let known = names_of(names, pids, n);
    if n == 0 {
        assert(pids.take(0).to_set() =~= Set::empty());
        assert(!any_named(unresolved, known.dom()));
        lemma_nothing_named(entries, unresolved, known);
    } else {
        lemma_added_bytes(entries, unresolved, names, table, pids, n - 1);
        let fewer = names_of(names, pids, n - 1);
        let pid = pids[n - 1];
        let earlier = pids.take(n - 1);
        let later = pids.take(n);
        let rows = waiting(unresolved, pid);
        let base = resolved(entries, unresolved, fewer);
        let after = resolved(entries, unresolved, known);
        assert(pids.to_set().contains(pid));
        let name = names[pid];
        assert forall|p: u32| later.to_set().contains(p) <==> earlier.to_set().contains(p) || p
            == pid by {
            if later.contains(p) {
                let j = choose|j: int| 0 <= j < later.len() && later[j] == p;
                if j < n - 1 {
                    assert(earlier[j] == p);
                }
            }
            if earlier.contains(p) {
                let j = choose|j: int| 0 <= j < earlier.len() && earlier[j] == p;
                assert(later[j] == p);
            }
            assert(later[n - 1] == pid);
        }
        assert(!fewer.contains_key(pid)) by {
            if earlier.contains(pid) {
                let j = choose|j: int| 0 <= j < earlier.len() && earlier[j] == pid;
                assert(pids[j] == pids[n - 1]);
            }
        }
        assert(selection::increasing(rows));
        assert forall|j: int| 0 <= j < rows.len() implies (#[trigger] rows[j]) < base.len()
            && base[rows[j] as int].process is None by {
            let row = waiting(unresolved, pid)[j];
            assert(nameless(entries[row as int]) && entries[row as int].pid == pid);
        }
        lemma_rows_named(base, rows, name, rows.len() as int);
        let done = applied(base, with_name(rows, name), rows.len() as int);
        assert forall|row: int| 0 <= row < entries.len() implies #[trigger] done[row]
            == after[row] by {
            if exists|j: int| 0 <= j < rows.len() && #[trigger] rows[j] == row {
                let j = choose|j: int| 0 <= j < rows.len() && #[trigger] rows[j] == row;
                assert(waiting(unresolved, pid)[j] == row);
                assert(entries[row].pid == pid);
                assert(rows.contains(row as usize));
            } else if entries[row].pid == pid && rows.contains(row as usize) {
                let j = choose|j: int| 0 <= j < rows.len() && rows[j] == row as usize;
                assert(rows[j] == row);
            }
        }
        assert(done =~= after);
    }
}

/// Naming the processes of a whole table adds the bytes of all its names.
proof fn lemma_all_added_bytes(
    entries: Seq<LogEntry>,
    unresolved: Map<u32, Vec<usize>>,
    names: Map<u32, Arc<str>>,
    table: Map<u32, String>,
    pids: Seq<u32>,
)
    requires
        entries.len() <= usize::MAX,
        waiting_ok(unresolved, entries),
        same_names(names, table),
        pids.no_duplicates(),
        pids.to_set() == table.dom(),
    ensures
        log_store::total_payload(resolved(entries, unresolved, names))
            == log_store::total_payload(entries) + added_bytes(
            unresolved,
            table,
            pids,
            pids.len() as int,
        ),
{
    lemma_added_bytes(entries, unresolved, names, table, pids, pids.len() as int);
    assert(pids.take(pids.len() as int) =~= pids);
    assert(names_of(names, pids, pids.len() as int) =~= names);
}

/// Whether the named entries can be accounted for, however a table is shared.
pub open spec fn fits_named(
    entries: LogStore,
    unresolved: Map<u32, Vec<usize>>,
    table: Map<u32, String>,
) -> bool {
    forall|names: Map<u32, Arc<str>>| #[trigger]
        same_names(names, table) ==> log_store::memory_of(
            resolved(entries@, unresolved, names),
            entries.lost(),
        ) <= usize::MAX
}

/// Whether the entries can be accounted for once a table has named them.
pub fn names_fit(
    entries: &LogStore,
    unresolved: &HashMap<u32, Vec<usize>>,
    table: &HashMap<u32, String>,
) -> (r: bool)
    requires
        entries.wf(),
        waiting_ok(unresolved@, entries@),
    ensures
        r == fits_named(*entries, unresolved@, table@),
{
    let pids = pids_of(table);
    let mut total: usize = entries.memory_bytes();
    let mut i: usize = 0;
    proof {
        entries.lemma_accounting();
    }
    while i < pids.len()
        invariant
            i <= pids@.len(),
            entries.wf(),
            entries@.len() <= usize::MAX,
            waiting_ok(unresolved@, entries@),
            pids@.no_duplicates(),
            pids@.to_set() == table@.dom(),
            total == entries.memory() + added_bytes(unresolved@, table@, pids@, i as int),
        decreases pids@.len() - i,
    {
        let pid = pids[i];
        assert(pids@.to_set().contains(pid));
        let rows: usize = match unresolved.get(&pid) {
            Some(rows) => rows.len(),
            None => 0,
        };
        let bytes: usize = match table.get(&pid) {
            Some(name) => name.as_str().as_bytes().len(),
            None => 0,
        };
        proof {
            let (a, b) = (rows as int, bytes as int);
            assert(0 <= a * b <= 0xffff_ffff_ffff_ffff * 0xffff_ffff_ffff_ffff) by (nonlinear_arith)
                requires
                    0 <= a <= 0xffff_ffff_ffff_ffff,
                    0 <= b <= 0xffff_ffff_ffff_ffff,
            ;
        }
        let next: u128 = total as u128 + rows as u128 * bytes as u128;
        assert(next == entries.memory() + added_bytes(unresolved@, table@, pids@, i + 1));
        if next > usize::MAX as u128 {
            let names = share_names(table);
            proof {
                let n = pids@.len() as int;
                lemma_added_bytes_grow(unresolved@, table@, pids@, i + 1, n);
                lemma_all_added_bytes(entries@, unresolved@, names@, table@, pids@);
                assert(same_names(names@, table@));
            }
            return false;
        }
        total = next as usize;
        i += 1;
    }
    proof {
        assert forall|names: Map<u32, Arc<str>>| #[trigger] same_names(
            names,
            table@,
        ) implies log_store::memory_of(resolved(entries@, unresolved@, names), entries.lost())
            <= usize::MAX by {
            lemma_all_added_bytes(entries@, unresolved@, names, table@, pids@);
        }
    }
    true
}

/// In a log that was cut exactly the nameless rows of a process wait for its name.
pub proof fn lemma_nameless_rows_wait(entries: Seq<LogEntry>, pid: u32, n: int, row: usize)
    requires
        0 <= n <= entries.len() <= usize::MAX,
    ensures
        nameless_rows(entries, pid, n).contains(row) <==> row < n && entries[row as int].pid == pid
            && pid != 0 && entries[row as int].process is None,
    decreases n,
{
    if n > 0 {
        lemma_nameless_rows_wait(entries, pid, n - 1, row);
        let before = nameless_rows(entries, pid, n - 1);
        let after = nameless_rows(entries, pid, n);
        if before.contains(row) {
            let i = choose|i: int| 0 <= i < before.len() && before[i] == row;
            assert(after[i] == row);
        }
        if after.contains(row) {
            let i = choose|i: int| 0 <= i < after.len() && after[i] == row;
            if i < before.len() {
                assert(before[i] == row);
            }
        }
        if row == n - 1 && nameless(entries[n - 1]) && entries[n - 1].pid == pid {
            assert(after[after.len() - 1] == row);
        }
    }
}

} // verus!
