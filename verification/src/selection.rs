//! The selected rows of the filtered log.

use std::collections::BTreeSet;

use vstd::prelude::*;

use crate::log_store::LogStore;
use crate::model::LogEntry;

verus! {

/// Rows in strictly increasing order.
pub open spec fn increasing(rows: Seq<usize>) -> bool {
    forall|i: int, j: int| 0 <= i < j < rows.len() ==> rows[i] < rows[j]
}

/// The rows of a set in increasing order.
pub open spec fn ascending(rows: Set<usize>) -> Seq<usize> {
    choose|order: Seq<usize>| increasing(order) && order.to_set() == rows
}

/// The filtered rows from one row to another, whichever of the two comes first.
pub open spec fn rows_between(matches: Seq<usize>, a: usize, b: usize) -> Set<usize> {
    matches.to_set().filter(|row: usize| a <= row <= b || b <= row <= a)
}

/// A row, as long as the filter shows it.
pub open spec fn visible_row(row: Option<usize>, matches: Seq<usize>) -> Option<usize> {
    match row {
        Some(index) => if matches.contains(index) {
            Some(index)
        } else {
            None
        },
        None => None,
    }
}

/// The row from which a range extends.
pub open spec fn range_start(matches: Seq<usize>, anchor: Option<usize>, index: usize) -> usize {
    match anchor {
        Some(anchor) => if matches.contains(anchor) {
            anchor
        } else {
            index
        },
        None => index,
    }
}

/// The selection after a row was picked. A row that the filter hides changes
/// nothing; extending selects the range from the anchor, toggling keeps what is
/// selected.
pub open spec fn picked_rows(
    rows: Set<usize>,
    anchor: Option<usize>,
    matches: Seq<usize>,
    index: usize,
    extend: bool,
    toggle: bool,
) -> Set<usize> {
    if !matches.contains(index) {
        rows
    } else if extend {
        let range = rows_between(matches, range_start(matches, anchor, index), index);
        if toggle {
            rows.union(range)
        } else {
            range
        }
    } else if toggle && rows.contains(index) {
        rows.remove(index)
    } else if toggle {
        rows.insert(index)
    } else {
        set![index]
    }
}

/// The anchor after a row was picked: extending keeps one that is there.
pub open spec fn picked_anchor(
    anchor: Option<usize>,
    matches: Seq<usize>,
    index: usize,
    extend: bool,
) -> Option<usize> {
    if !matches.contains(index) || (extend && anchor is Some) {
        anchor
    } else {
        Some(index)
    }
}

/// The full texts of rows, one under the other.
pub open spec fn joined(rows: Seq<usize>, entries: Seq<LogEntry>) -> Seq<char>
    decreases rows.len(),
{
    if rows.len() == 0 {
        seq![]
    } else if rows.len() == 1 {
        entries[rows[0] as int].full_text()
    } else {
        joined(rows.drop_last(), entries) + seq!['\n'] + entries[rows.last() as int].full_text()
    }
}

/// A set of rows has one increasing order.
pub proof fn lemma_increasing_order_unique(a: Seq<usize>, b: Seq<usize>)
    requires
        increasing(a),
        increasing(b),
        a.to_set() == b.to_set(),
    ensures
        a == b,
    decreases a.len(),
{
    if a.len() == 0 {
        if b.len() > 0 {
            assert(b.to_set().contains(b[0]));
            assert(a.to_set().contains(b[0]));
        }
        assert(a =~= b);
    } else {
        assert(a.to_set().contains(a.last()));
        assert(b.to_set().contains(a.last()));
        assert(b.to_set().contains(b.last()));
        assert(a.to_set().contains(b.last()));
        let i = choose|i: int| 0 <= i < b.len() && b[i] == a.last();
        let j = choose|j: int| 0 <= j < a.len() && a[j] == b.last();
        assert(a.last() == b.last()) by {
            if i < b.len() - 1 {
                assert(b[i] < b[b.len() - 1]);
            }
            if j < a.len() - 1 {
                assert(a[j] < a[a.len() - 1]);
            }
        }
        let x = a.drop_last();
        let y = b.drop_last();
        assert forall|v: usize| x.to_set().contains(v) <==> y.to_set().contains(v) by {
            if x.to_set().contains(v) {
                let k = choose|k: int| 0 <= k < x.len() && x[k] == v;
                assert(a[k] == v && a[k] < a[a.len() - 1]);
                assert(b.to_set().contains(v));
                let m = choose|m: int| 0 <= m < b.len() && b[m] == v;
                assert(y[m] == v);
            }
            if y.to_set().contains(v) {
                let k = choose|k: int| 0 <= k < y.len() && y[k] == v;
                assert(b[k] == v && b[k] < b[b.len() - 1]);
                assert(a.to_set().contains(v));
                let m = choose|m: int| 0 <= m < a.len() && a[m] == v;
                assert(x[m] == v);
            }
        }
        assert(x.to_set() =~= y.to_set());
        lemma_increasing_order_unique(x, y);
        assert(a =~= x.push(a.last()));
        assert(b =~= y.push(b.last()));
    }
}

/// The place of a row among increasing rows.
pub fn find_row(matches: &[usize], index: usize) -> (r: Option<usize>)
    requires
        increasing(matches@),
    ensures
        r is Some <==> matches@.contains(index),
        r matches Some(place) ==> place < matches@.len() && matches@[place as int] == index,
{
    let mut low: usize = 0;
    let mut high: usize = matches.len();
    while low < high
        invariant
            low <= high <= matches@.len(),
            increasing(matches@),
            forall|i: int| 0 <= i < low ==> matches@[i] < index,
            forall|i: int| high <= i < matches@.len() ==> matches@[i] > index,
        decreases high - low,
    {
        let middle: usize = low + (high - low) / 2;
        let row = matches[middle];
        if row == index {
            return Some(middle);
        } else if row < index {
            low = middle + 1;
        } else {
            high = middle;
        }
    }
    None
}

/// The keys that move the selection.
#[derive(Clone, Copy, Debug, Eq, PartialEq, Structural)]
pub enum NavigationKey {
    ArrowUp,
    ArrowDown,
    Home,
    End,
    Other,
}

/// The row that a key moves to: the neighbour of the selected row, or the nearest
/// end of the filtered rows where none of them is selected.
pub open spec fn navigated(
    matches: Seq<usize>,
    selected: Option<usize>,
    key: NavigationKey,
) -> Option<usize> {
    let shown = visible_row(selected, matches);
    let last = matches.len() - 1;
    if matches.len() == 0 {
        None
    } else {
        match key {
            NavigationKey::Home => Some(matches[0]),
            NavigationKey::End => Some(matches[last]),
            NavigationKey::ArrowUp => match shown {
                None => Some(matches[last]),
                Some(row) => {
                    let place = matches.index_of(row);
                    Some(
                        matches[if place == 0 {
                            0
                        } else {
                            place - 1
                        }],
                    )
                },
            },
            NavigationKey::ArrowDown => match shown {
                None => Some(matches[0]),
                Some(row) => {
                    let place = matches.index_of(row);
                    Some(
                        matches[if place == last {
                            last
                        } else {
                            place + 1
                        }],
                    )
                },
            },
            NavigationKey::Other => selected,
        }
    }
}

/// The row that a key moves to.
pub fn navigated_selection(
    matches: &[usize],
    selected: Option<usize>,
    key: NavigationKey,
) -> (r: Option<usize>)
    requires
        increasing(matches@),
    ensures
        r == navigated(matches@, selected, key),
{
    if matches.len() == 0 {
        return None;
    }
    let last: usize = matches.len() - 1;
    let place: Option<usize> = match selected {
        None => None,
        Some(row) => find_row(matches, row),
    };
    proof {
        if let Some(found) = place {
            let row = selected->0;
            assert(matches@.index_of(row) == found) by {
                let other = matches@.index_of(row);
                assert(0 <= other < matches@.len() && matches@[other] == row);
            }
        }
    }
    let target: usize = match key {
        NavigationKey::Home => 0,
        NavigationKey::End => last,
        NavigationKey::ArrowUp => match place {
            None => last,
            Some(place) => if place == 0 {
                0
            } else {
                place - 1
            },
        },
        NavigationKey::ArrowDown => match place {
            None => 0,
            Some(place) => if place == last {
                last
            } else {
                place + 1
            },
        },
        NavigationKey::Other => {
            return selected;
        },
    };
    Some(matches[target])
}

/// A key moves to a filtered row, or nowhere where there is none.
pub proof fn lemma_navigation_stays_visible(
    matches: Seq<usize>,
    selected: Option<usize>,
    key: NavigationKey,
)
    requires
        selected matches Some(row) ==> matches.contains(row),
    ensures
        matches.len() == 0 ==> navigated(matches, selected, key) is None,
        navigated(matches, selected, key) matches Some(row) ==> matches.contains(row),
{
    if let Some(row) = selected {
        let place = matches.index_of(row);
        assert(0 <= place < matches.len());
    }
}

/// Indices refer to the retained store; ranges follow only filtered rows.
pub struct RowSelection {
    pub rows: BTreeSet<usize>,
    pub anchor: Option<usize>,
}

impl Default for RowSelection {
    fn default() -> (r: RowSelection)
        ensures
            r.rows@.is_empty(),
            r.anchor is None,
    {
        RowSelection { rows: BTreeSet::new(), anchor: None }
    }
}

/// Adds a row.
fn add_row(rows: &mut BTreeSet<usize>, row: usize)
    ensures
        final(rows)@ == old(rows)@.insert(row),
{
    assert(vstd::laws_cmp::obeys_cmp::<usize>());
    rows.insert(row);
}

/// Removes a row and says whether it was there.
fn remove_row(rows: &mut BTreeSet<usize>, row: usize) -> (r: bool)
    ensures
        final(rows)@ == old(rows)@.remove(row),
        r == old(rows)@.contains(row),
{
    assert(vstd::laws_cmp::obeys_cmp::<usize>());
    rows.remove(&row)
}

/// Adds a stretch of rows.
fn add_rows(rows: &mut BTreeSet<usize>, matches: &[usize], from: usize, to: usize)
    requires
        from <= to < matches@.len(),
        increasing(matches@),
    ensures
        final(rows)@ == old(rows)@.union(
            rows_between(matches@, matches@[from as int], matches@[to as int]),
        ),
{
    let mut i: usize = from;
    let ghost target = rows_between(matches@, matches@[from as int], matches@[to as int]);
    while i <= to
        invariant
            from <= i <= to + 1,
            to < matches@.len(),
            increasing(matches@),
            target == rows_between(matches@, matches@[from as int], matches@[to as int]),
            forall|row: usize| #[trigger] old(rows)@.contains(row) ==> rows@.contains(row),
            forall|j: int| from <= j < i ==> rows@.contains(#[trigger] matches@[j]),
            forall|row: usize| #[trigger]
                rows@.contains(row) ==> old(rows)@.contains(row) || target.contains(row),
        decreases to + 1 - i,
    {
        assert(target.contains(matches@[i as int])) by {
            assert(matches@.to_set().contains(matches@[i as int]));
        }
        add_row(rows, matches[i]);
        i += 1;
    }
    proof {
        assert forall|row: usize| target.contains(row) implies #[trigger] rows@.contains(row) by {
            let k = choose|k: int| 0 <= k < matches@.len() && matches@[k] == row;
            assert(from <= k <= to);
        }
        assert(rows@ =~= old(rows)@.union(target));
    }
}

impl RowSelection {
    pub fn contains(&self, index: usize) -> (r: bool)
        ensures
            r == self.rows@.contains(index),
    {
        assert(vstd::laws_cmp::obeys_cmp::<usize>());
        self.rows.contains(&index)
    }

    pub fn is_empty(&self) -> (r: bool)
        ensures
            r == self.rows@.is_empty(),
    {
        self.rows.is_empty()
    }

    pub fn clear(&mut self)
        ensures
            final(self).rows@.is_empty(),
            final(self).anchor is None,
    {
        self.rows.clear();
        self.anchor = None;
    }

    /// The selected rows in increasing order.
    pub fn sorted(&self) -> (r: Vec<usize>)
        ensures
            increasing(r@),
            r@.to_set() == self.rows@,
            r@ == ascending(self.rows@),
    {
        assert(vstd::laws_cmp::obeys_cmp::<usize>());
        assert(vstd::laws_cmp::obeys_cmp::<&usize>());
        let mut out: Vec<usize> = Vec::new();
        let rows = &self.rows;
        let ghost order = vstd::std_specs::iter::IteratorSpec::remaining(
            &vstd::std_specs::btree::spec_btree_keys_iter(rows),
        );
        for row in it: rows.iter()
            invariant
                it.seq() == order,
                out@.len() == it.index(),
                forall|k: int| 0 <= k < out@.len() ==> out@[k] == *(#[trigger] order[k]),
        {
            out.push(*row);
        }
        proof {
            assert(out@ =~= order.unref());
            assert(out@.to_set() =~= self.rows@);
            assert(vstd::std_specs::btree::increasing_seq(order));
            assert forall|i: int, j: int| 0 <= i < j < out@.len() implies out@[i] < out@[j] by {
                assert(vstd::std_specs::cmp::OrdSpec::cmp_spec(&order[i], &order[j]) is Less);
            }
            let chosen = ascending(self.rows@);
            assert(increasing(out@) && out@.to_set() == self.rows@);
            lemma_increasing_order_unique(out@, chosen);
        }
        out
    }

    /// Drops the rows that the filter hides now.
    pub fn retain(&mut self, matches: &[usize])
        requires
            increasing(matches@),
        ensures
            final(self).rows@ == old(self).rows@.intersect(matches@.to_set()),
            final(self).anchor == visible_row(old(self).anchor, matches@),
    {
        let order = self.sorted();
        let ghost before = self.rows@;
        let mut kept: BTreeSet<usize> = BTreeSet::new();
        let mut i: usize = 0;
        while i < order.len()
            invariant
                i <= order@.len(),
                increasing(matches@),
                forall|row: usize| #[trigger]
                    kept@.contains(row) <==> (matches@.contains(row) && exists|k: int|
                        0 <= k < i && order@[k] == row),
            decreases order@.len() - i,
        {
            let ghost earlier = kept@;
            let row = order[i];
            if find_row(matches, row).is_some() {
                add_row(&mut kept, row);
            }
            proof {
                assert forall|r: usize| #[trigger]
                    kept@.contains(r) <==> (matches@.contains(r) && exists|k: int|
                        0 <= k < i + 1 && order@[k] == r) by {
                    if r == row {
                        assert(order@[i as int] == r);
                    } else if earlier.contains(r) {
                        let k = choose|k: int| 0 <= k < i && order@[k] == r;
                        assert(0 <= k < i + 1 && order@[k] == r);
                    }
                }
            }
            i += 1;
        }
        proof {
            assert forall|row: usize| kept@.contains(row) <==> #[trigger] before.intersect(
                matches@.to_set(),
            ).contains(row) by {
                assert(order@.to_set().contains(row) <==> before.contains(row));
            }
            assert(kept@ =~= before.intersect(matches@.to_set()));
        }
        self.rows = kept;
        if let Some(anchor) = self.anchor {
            if find_row(matches, anchor).is_none() {
                self.anchor = None;
            }
        }
    }

    /// Selects every filtered row.
    pub fn select_all(&mut self, matches: &[usize])
        requires
            increasing(matches@),
        ensures
            final(self).rows@ == matches@.to_set(),
            final(self).anchor == (if matches@.len() == 0 {
                None::<usize>
            } else {
                Some(matches@[0])
            }),
    {
        self.rows = BTreeSet::new();
        if matches.len() == 0 {
            self.anchor = None;
            assert(self.rows@ =~= matches@.to_set());
        } else {
            add_rows(&mut self.rows, matches, 0, matches.len() - 1);
            self.anchor = Some(matches[0]);
            proof {
                assert forall|row: usize| matches@.to_set().contains(row) implies #[trigger] self.rows@.contains(
                    row,
                ) by {
                    let k = choose|k: int| 0 <= k < matches@.len() && matches@[k] == row;
                    assert(matches@[0] <= matches@[k] <= matches@[matches@.len() - 1]);
                }
                assert(self.rows@ =~= matches@.to_set());
            }
        }
    }

    /// Picks a row, as a click or a key does.
    pub fn select(&mut self, matches: &[usize], index: usize, extend: bool, toggle: bool)
        requires
            increasing(matches@),
        ensures
            final(self).rows@ == picked_rows(
                old(self).rows@,
                old(self).anchor,
                matches@,
                index,
                extend,
                toggle,
            ),
            final(self).anchor == picked_anchor(old(self).anchor, matches@, index, extend),
    {
        let end: usize = match find_row(matches, index) {
            None => {
                return;
            },
            Some(place) => place,
        };
        if extend {
            let start: usize = match self.anchor {
                None => end,
                Some(anchor) => match find_row(matches, anchor) {
                    None => end,
                    Some(place) => place,
                },
            };
            if !toggle {
                self.rows.clear();
            }
            let ghost kept = self.rows@;
            let low: usize = if start < end {
                start
            } else {
                end
            };
            let high: usize = if start < end {
                end
            } else {
                start
            };
            add_rows(&mut self.rows, matches, low, high);
            proof {
                let from = range_start(matches@, self.anchor, index);
                assert(from == matches@[start as int]);
                assert(rows_between(matches@, matches@[low as int], matches@[high as int])
                    =~= rows_between(matches@, from, index));
                assert(self.rows@ =~= kept.union(rows_between(matches@, from, index)));
                if !toggle {
                    assert(self.rows@ =~= rows_between(matches@, from, index));
                }
            }
            if self.anchor.is_none() {
                self.anchor = Some(index);
            }
        } else {
            if !toggle {
                self.rows.clear();
                add_row(&mut self.rows, index);
                assert(self.rows@ =~= set![index]);
            } else if !remove_row(&mut self.rows, index) {
                assert(self.rows@ =~= old(self).rows@);
                add_row(&mut self.rows, index);
            }
            self.anchor = Some(index);
        }
    }

    /// The selected entries in full, in the order of the log.
    pub fn copy_text(&self, entries: &LogStore) -> (r: String)
        requires
            entries.wf(),
            forall|row: usize| #[trigger] self.rows@.contains(row) ==> row < entries@.len(),
        ensures
            r@ == joined(ascending(self.rows@), entries@),
    {
        let order = self.sorted();
        let mut text = String::new();
        let mut i: usize = 0;
        proof {
            assert(order@.take(0) =~= seq![]);
        }
        while i < order.len()
            invariant
                i <= order@.len(),
                entries.wf(),
                order@.to_set() == self.rows@,
                forall|row: usize| #[trigger] self.rows@.contains(row) ==> row < entries@.len(),
                text@ == joined(order@.take(i as int), entries@),
            decreases order@.len() - i,
        {
            let row = order[i];
            assert(order@.to_set().contains(row));
            if i > 0 {
                text.push('\n');
            }
            text.append(entries.get(row).copy_text().as_str());
            proof {
                let longer = order@.take(i + 1);
                assert(longer.drop_last() =~= order@.take(i as int));
                assert(text@ =~= joined(longer, entries@));
            }
            i += 1;
        }
        assert(order@.take(i as int) =~= order@);
        text
    }
}

/// Picking a row never selects one that the filter hides: where all selected
/// rows are filtered ones, they still are afterwards.
pub proof fn lemma_pick_stays_visible(
    rows: Set<usize>,
    anchor: Option<usize>,
    matches: Seq<usize>,
    index: usize,
    extend: bool,
    toggle: bool,
)
    requires
        rows.subset_of(matches.to_set()),
    ensures
        picked_rows(rows, anchor, matches, index, extend, toggle).subset_of(matches.to_set()),
{
}

/// A range is the same from either end.
pub proof fn lemma_range_is_symmetric(matches: Seq<usize>, a: usize, b: usize)
    ensures
        rows_between(matches, a, b) == rows_between(matches, b, a),
{
    assert(rows_between(matches, a, b) =~= rows_between(matches, b, a));
}

/// Toggling a filtered row twice leaves the selection as it was.
pub proof fn lemma_toggle_undoes_itself(
    rows: Set<usize>,
    anchor: Option<usize>,
    matches: Seq<usize>,
    index: usize,
)
    ensures
        picked_rows(
            picked_rows(rows, anchor, matches, index, false, true),
            picked_anchor(anchor, matches, index, false),
            matches,
            index,
            false,
            true,
        ) == rows,
{
    let once = picked_rows(rows, anchor, matches, index, false, true);
    let twice = picked_rows(
        once,
        picked_anchor(anchor, matches, index, false),
        matches,
        index,
        false,
        true,
    );
    assert(twice =~= rows);
}

/// Copying rows in two parts: the copy of the whole is that of the first part, a line
/// feed, and that of the second.
pub proof fn lemma_copies_join(first: Seq<usize>, second: Seq<usize>, entries: Seq<LogEntry>)
    requires
        first.len() > 0,
        second.len() > 0,
    ensures
        joined(first + second, entries) == joined(first, entries) + seq!['\n'] + joined(
            second,
            entries,
        ),
    decreases second.len(),
{
    let rows = first + second;
    if second.len() == 1 {
        assert(rows.drop_last() =~= first);
        assert(rows.last() == second[0]);
    } else {
        let shorter = second.drop_last();
        lemma_copies_join(first, shorter, entries);
        assert(rows.drop_last() =~= first + shorter);
        assert(rows.last() == second.last());
        assert(joined(rows, entries) =~= joined(first, entries) + seq!['\n'] + joined(
            second,
            entries,
        ));
    }
}

/// The copy of one row is its full text, and that of none is empty.
pub proof fn lemma_copy_of_one_row(row: usize, entries: Seq<LogEntry>)
    ensures
        joined(seq![row], entries) == entries[row as int].full_text(),
        joined(seq![], entries) == Seq::<char>::empty(),
{
}

/// Selected rows are copied in increasing order, whatever the order in which they were
/// selected.
pub proof fn lemma_copied_in_order(rows: Set<usize>, order: Seq<usize>)
    requires
        increasing(order),
        order.to_set() == rows,
    ensures
        ascending(rows) == order,
{
    lemma_increasing_order_unique(ascending(rows), order);
}

/// What picking a row does to any row. A plain pick selects that row alone; toggling
/// changes that row alone; extending selects the shown rows from the anchor to it, and
/// with toggling keeps the others. A row that is not shown changes nothing.
pub proof fn lemma_pick(
    rows: Set<usize>,
    anchor: Option<usize>,
    matches: Seq<usize>,
    index: usize,
    toggle: bool,
    row: usize,
)
    ensures
        ({
            let plain = picked_rows(rows, anchor, matches, index, false, false);
            let toggled = picked_rows(rows, anchor, matches, index, false, true);
            let extended = picked_rows(rows, anchor, matches, index, true, toggle);
            if !matches.contains(index) {
                plain == rows && toggled == rows && extended == rows
            } else {
                &&& plain.contains(row) <==> row == index
                &&& toggled.contains(row) <==> (row == index) != rows.contains(row)
                &&& anchor is None || !matches.contains(anchor->0) ==> (extended.contains(row)
                    <==> row == index || (toggle && rows.contains(row)))
                &&& anchor matches Some(from) ==> matches.contains(from) ==> (extended.contains(row)
                    <==> (matches.contains(row) && (from <= row <= index || index <= row <= from))
                    || (toggle && rows.contains(row)))
            }
        }),
        picked_anchor(anchor, matches, index, false) == (if matches.contains(index) {
            Some(index)
        } else {
            anchor
        }),
        anchor is Some ==> picked_anchor(anchor, matches, index, true) == anchor,
        anchor is None && matches.contains(index) ==> picked_anchor(anchor, matches, index, true)
            == Some(index),
{
    assert(matches.to_set().contains(row) <==> matches.contains(row));
}

/// After a plain pick the selection can be extended again and again: each time it reaches
/// from the picked row to the last one.
pub proof fn lemma_extending_again(
    rows: Set<usize>,
    anchor: Option<usize>,
    matches: Seq<usize>,
    start: usize,
    middle: usize,
    end: usize,
)
    requires
        matches.contains(start),
        matches.contains(middle),
        matches.contains(end),
    ensures
        ({
            let picked = picked_rows(rows, anchor, matches, start, false, false);
            let from = picked_anchor(anchor, matches, start, false);
            let further = picked_rows(picked, from, matches, middle, true, false);
            let still = picked_anchor(from, matches, middle, true);
            picked_rows(further, still, matches, end, true, false) == picked_rows(
                picked,
                from,
                matches,
                end,
                true,
                false,
            )
        }),
{
}

/// The keys move along the shown rows: down to the next and up to the one before, as far
/// as there is one, to the first and to the last. Without a selected row down begins at
/// the first and up at the last. Up undoes down.
pub proof fn lemma_keys_move_along_the_rows(matches: Seq<usize>, i: int, hidden: Option<usize>)
    requires
        increasing(matches),
        0 <= i < matches.len(),
        hidden matches Some(row) ==> !matches.contains(row),
    ensures
        ({
            let here = Some(matches[i]);
            let last = matches.len() - 1;
            &&& i < last ==> navigated(matches, here, NavigationKey::ArrowDown) == Some(
                matches[i + 1],
            )
            &&& i == last ==> navigated(matches, here, NavigationKey::ArrowDown) == here
            &&& i > 0 ==> navigated(matches, here, NavigationKey::ArrowUp) == Some(matches[i - 1])
            &&& i == 0 ==> navigated(matches, here, NavigationKey::ArrowUp) == here
            &&& i < last ==> navigated(
                matches,
                navigated(matches, here, NavigationKey::ArrowDown),
                NavigationKey::ArrowUp,
            ) == here
            &&& navigated(matches, here, NavigationKey::Home) == Some(matches[0])
            &&& navigated(matches, here, NavigationKey::End) == Some(matches[last])
            &&& navigated(matches, here, NavigationKey::Other) == here
            &&& navigated(matches, hidden, NavigationKey::ArrowDown) == Some(matches[0])
            &&& navigated(matches, hidden, NavigationKey::ArrowUp) == Some(matches[last])
        }),
{
    lemma_place_of(matches, i);
    if i < matches.len() - 1 {
        lemma_place_of(matches, i + 1);
    }
}

/// Where rows increase each has one place.
proof fn lemma_place_of(matches: Seq<usize>, i: int)
    requires
        increasing(matches),
        0 <= i < matches.len(),
    ensures
        matches.contains(matches[i]),
        matches.index_of(matches[i]) == i,
{
    let place = matches.index_of(matches[i]);
    assert(0 <= place < matches.len() && matches[place] == matches[i]);
}

} // verus!
