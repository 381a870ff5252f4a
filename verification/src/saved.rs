//! The list of saved filters.

use vstd::prelude::*;

use crate::model::SavedFilter;
use crate::text;
use crate::text::{comes_before, equal};

verus! {

/// What `str::to_lowercase` makes of a text.
pub uninterp spec fn lowercase(s: Seq<char>) -> Seq<char>;

/// `str::to_lowercase` maps a text to lower case as Unicode says, which depends on
/// the text alone.
pub assume_specification[ str::to_lowercase ](s: &str) -> (r: String)
    ensures
        r@ == lowercase(s@),
;

/// Whether a filter stands behind another in the list, upper and lower case being
/// the same.
pub open spec fn stands_after(a: SavedFilter, b: SavedFilter) -> bool {
    text::precedes(lowercase(b.name@), lowercase(a.name@))
}

/// The place of a filter in a list: before the first that stands behind it.
pub open spec fn place_for(list: Seq<SavedFilter>, x: SavedFilter) -> int
    decreases list.len(),
{
    if list.len() == 0 || stands_after(list[0], x) {
        0
    } else {
        1 + place_for(list.drop_first(), x)
    }
}

/// The filters in order. Of two with the same name in lower case the one that came
/// first stays first.
pub open spec fn in_order(list: Seq<SavedFilter>) -> Seq<SavedFilter>
    decreases list.len(),
{
    if list.len() == 0 {
        seq![]
    } else {
        let sorted = in_order(list.drop_last());
        sorted.insert(place_for(sorted, list.last()), list.last())
    }
}

/// The place of the filter with a name.
pub open spec fn named(list: Seq<SavedFilter>, name: Seq<char>) -> Option<nat>
    decreases list.len(),
{
    if list.len() == 0 {
        None
    } else if list[0].name@ == name {
        Some(0)
    } else {
        match named(list.drop_first(), name) {
            Some(place) => Some(place + 1),
            None => None,
        }
    }
}

/// A list in which a filter has taken the place of the one with its name, or stands
/// at the end.
pub open spec fn replaced(list: Seq<SavedFilter>, x: SavedFilter) -> Seq<SavedFilter> {
    match named(list, x.name@) {
        Some(place) => list.update(place as int, x),
        None => list.push(x),
    }
}

/// Whether a list is in order.
pub open spec fn ordered(list: Seq<SavedFilter>) -> bool {
    forall|i: int, j: int| 0 <= i < j < list.len() ==> !stands_after(list[i], list[j])
}

/// What the place of a filter is.
proof fn lemma_place(list: Seq<SavedFilter>, x: SavedFilter)
    ensures
        0 <= place_for(list, x) <= list.len(),
        forall|i: int| 0 <= i < place_for(list, x) ==> !stands_after(#[trigger] list[i], x),
        place_for(list, x) < list.len() ==> stands_after(list[place_for(list, x)], x),
    decreases list.len(),
{
    if list.len() > 0 && !stands_after(list[0], x) {
        lemma_place(list.drop_first(), x);
        assert forall|i: int| 0 <= i < place_for(list, x) implies !stands_after(
            #[trigger] list[i],
            x,
        ) by {
            if i > 0 {
                assert(list.drop_first()[i - 1] == list[i]);
            }
        }
    }
}

/// Ordering a list keeps exactly its filters and puts them in order.
pub proof fn lemma_in_order(list: Seq<SavedFilter>)
    ensures
        ordered(in_order(list)),
        in_order(list).to_multiset() == list.to_multiset(),
        in_order(list).len() == list.len(),
    decreases list.len(),
{
    broadcast use vstd::seq_lib::group_to_multiset_ensures;

    if list.len() > 0 {
        let front = list.drop_last();
        let x = list.last();
        let sorted = in_order(front);
        let place = place_for(sorted, x);
        let after = sorted.insert(place, x);
        lemma_in_order(front);
        lemma_place(sorted, x);
        assert forall|i: int, j: int| 0 <= i < j < after.len() implies !stands_after(
            after[i],
            after[j],
        ) by {
            let key = lowercase(x.name@);
            if i == place {
                let first = lowercase(sorted[place].name@);
                let other = lowercase(sorted[j - 1].name@);
                assert(text::precedes(key, first));
                if text::precedes(other, key) {
                    text::lemma_precedes_transitive(other, key, first);
                    if j - 1 > place {
                        assert(!stands_after(sorted[place], sorted[j - 1]));
                    } else {
                        text::lemma_precedes_total(first, first);
                    }
                }
            } else if j == place {
                assert(!stands_after(sorted[i], x));
            } else {
                let a = if i < place {
                    i
                } else {
                    i - 1
                };
                let b = if j < place {
                    j
                } else {
                    j - 1
                };
                assert(!stands_after(sorted[a], sorted[b]));
            }
        }
        assert(list =~= front.push(x));
        vstd::seq_lib::to_multiset_insert(sorted, place, x);
    } else {
        assert(in_order(list) =~= list);
    }
}

/// Whether no two filters of a list have the same name.
pub open spec fn distinct_names(list: Seq<SavedFilter>) -> bool {
    forall|i: int, j: int| 0 <= i < j < list.len() ==> list[i].name@ != list[j].name@
}

/// Ordering a list keeps every filter and brings in none.
proof fn lemma_order_keeps(list: Seq<SavedFilter>, x: SavedFilter)
    ensures
        in_order(list).contains(x) <==> list.contains(x),
{
    lemma_in_order(list);
    vstd::seq_lib::to_multiset_contains(in_order(list), x);
    vstd::seq_lib::to_multiset_contains(list, x);
}

/// Where names are distinct, ordering keeps them so.
proof fn lemma_order_keeps_names(list: Seq<SavedFilter>)
    requires
        distinct_names(list),
    ensures
        distinct_names(in_order(list)),
{
    let sorted = in_order(list);
    lemma_in_order(list);
    assert(list.no_duplicates());
    list.lemma_multiset_has_no_duplicates();
    sorted.lemma_multiset_has_no_duplicates_conv();
    assert forall|i: int, j: int| 0 <= i < j < sorted.len() implies sorted[i].name@
        != sorted[j].name@ by {
        lemma_order_keeps(list, sorted[i]);
        lemma_order_keeps(list, sorted[j]);
        assert(sorted.contains(sorted[i]) && sorted.contains(sorted[j]));
        let a = choose|a: int| 0 <= a < list.len() && list[a] == sorted[i];
        let b = choose|b: int| 0 <= b < list.len() && list[b] == sorted[j];
        assert(sorted[i] != sorted[j]);
        assert(a != b);
    }
}

/// What the place of a name is.
proof fn lemma_named(list: Seq<SavedFilter>, name: Seq<char>)
    ensures
        match named(list, name) {
            Some(place) => place < list.len() && list[place as int].name@ == name,
            None => forall|i: int| 0 <= i < list.len() ==> (#[trigger] list[i]).name@ != name,
        },
    decreases list.len(),
{
    if list.len() > 0 && list[0].name@ != name {
        let rest = list.drop_first();
        lemma_named(rest, name);
        assert forall|i: int| named(list, name) is None && 0 <= i < list.len() implies (
        #[trigger] list[i]).name@ != name by {
            if i > 0 {
                assert(rest[i - 1] == list[i]);
            }
        }
    }
}

/// A filter that was saved is in the list, it is the only one with its name, and
/// the others are kept.
pub proof fn lemma_saved_filter_is_kept(list: Seq<SavedFilter>, x: SavedFilter, y: SavedFilter)
    requires
        distinct_names(list),
    ensures
        in_order(replaced(list, x)).contains(x),
        distinct_names(in_order(replaced(list, x))),
        y.name@ != x.name@ ==> (in_order(replaced(list, x)).contains(y) <==> list.contains(y)),
{
    let after = replaced(list, x);
    lemma_named(list, x.name@);
    lemma_order_keeps(after, x);
    lemma_order_keeps(after, y);
    match named(list, x.name@) {
        Some(place) => {
            let p = place as int;
            assert(after[p] == x);
            assert forall|i: int, j: int| 0 <= i < j < after.len() implies after[i].name@
                != after[j].name@ by {
                assert(list[i].name@ != list[j].name@);
            }
            if y.name@ != x.name@ && list.contains(y) {
                let i = choose|i: int| 0 <= i < list.len() && list[i] == y;
                assert(after[i] == y);
            }
            if y.name@ != x.name@ && after.contains(y) {
                let i = choose|i: int| 0 <= i < after.len() && after[i] == y;
                assert(list[i] == y);
            }
        },
        None => {
            assert(after[list.len() as int] == x);
            if list.contains(y) {
                let i = choose|i: int| 0 <= i < list.len() && list[i] == y;
                assert(after[i] == y);
            }
            if y.name@ != x.name@ && after.contains(y) {
                let i = choose|i: int| 0 <= i < after.len() && after[i] == y;
                assert(list[i] == y);
            }
        },
    }
    assert(distinct_names(after));
    lemma_order_keeps_names(after);
}

/// The place of a filter in a list that is in order.
fn find_place(list: &Vec<SavedFilter>, x: &SavedFilter) -> (r: usize)
    ensures
        r == place_for(list@, *x),
        r <= list@.len(),
{
    let key = x.name.as_str().to_lowercase();
    let mut i: usize = 0;
    proof {
        assert(list@.skip(0) =~= list@);
    }
    while i < list.len()
        invariant
            i <= list@.len(),
            key@ == lowercase(x.name@),
            place_for(list@, *x) == i + place_for(list@.skip(i as int), *x),
        decreases list@.len() - i,
    {
        proof {
            assert(list@.skip(i as int)[0] == list@[i as int]);
            assert(list@.skip(i as int).drop_first() =~= list@.skip(i + 1));
        }
        let other = list[i].name.as_str().to_lowercase();
        if comes_before(key.as_str(), other.as_str()) {
            return i;
        }
        i += 1;
    }
    i
}

/// The filters in order.
fn order(list: &Vec<SavedFilter>) -> (r: Vec<SavedFilter>)
    ensures
        r@ == in_order(list@),
{
    let mut sorted: Vec<SavedFilter> = Vec::new();
    let mut i: usize = 0;
    proof {
        assert(list@.take(0) =~= seq![]);
    }
    while i < list.len()
        invariant
            i <= list@.len(),
            sorted@ == in_order(list@.take(i as int)),
        decreases list@.len() - i,
    {
        let x = list[i].clone();
        proof {
            assert(list@.take(i + 1).drop_last() =~= list@.take(i as int));
            assert(list@.take(i + 1).last() == x);
        }
        let place = find_place(&sorted, &x);
        sorted.insert(place, x);
        i += 1;
    }
    assert(list@.take(i as int) =~= list@);
    sorted
}

/// Saves a filter under its name.
pub fn save_filter(list: &mut Vec<SavedFilter>, x: SavedFilter)
    ensures
        final(list)@ == in_order(replaced(old(list)@, x)),
{
    let mut i: usize = 0;
    proof {
        assert(list@.skip(0) =~= list@);
    }
    while i < list.len() && !equal(list[i].name.as_str(), x.name.as_str())
        invariant
            i <= list@.len(),
            list@ == old(list)@,
            named(list@, x.name@) == (match named(list@.skip(i as int), x.name@) {
                Some(place) => Some((place + i) as nat),
                None => None::<nat>,
            }),
        decreases list@.len() - i,
    {
        proof {
            assert(list@.skip(i as int)[0] == list@[i as int]);
            assert(list@.skip(i as int).drop_first() =~= list@.skip(i + 1));
        }
        i += 1;
    }
    if i < list.len() {
        assert(list@.skip(i as int)[0] == list@[i as int]);
        list.set(i, x);
    } else {
        list.push(x);
    }
    let sorted = order(&*list);
    *list = sorted;
}

/// A copy of a list.
pub fn copy_filters(list: &Vec<SavedFilter>) -> (r: Vec<SavedFilter>)
    ensures
        r@ == list@,
{
    let mut copy: Vec<SavedFilter> = Vec::new();
    let mut i: usize = 0;
    while i < list.len()
        invariant
            i <= list@.len(),
            copy@ == list@.take(i as int),
        decreases list@.len() - i,
    {
        copy.push(list[i].clone());
        i += 1;
        assert(copy@ =~= list@.take(i as int));
    }
    assert(list@.take(i as int) =~= list@);
    copy
}

/// Filters whose name is the same in lower case.
pub open spec fn with_key(key: Seq<char>) -> spec_fn(SavedFilter) -> bool {
    |x: SavedFilter| lowercase(x.name@) == key
}

/// Filters whose names are the same in lower case keep their order.
pub proof fn lemma_order_is_stable(list: Seq<SavedFilter>, key: Seq<char>)
    ensures
        in_order(list).filter(with_key(key)) == list.filter(with_key(key)),
    decreases list.len(),
{
    let keep = with_key(key);
    if list.len() == 0 {
        assert(in_order(list) =~= list);
    } else {
        let front = list.drop_last();
        let x = list.last();
        let sorted = in_order(front);
        let place = place_for(sorted, x);
        lemma_order_is_stable(front, key);
        lemma_in_order(front);
        lemma_place(sorted, x);
        let head = sorted.take(place);
        let tail = sorted.skip(place);
        assert(sorted =~= head + tail);
        assert(sorted.insert(place, x) =~= head.push(x) + tail);
        Seq::filter_distributes_over_add(head, tail, keep);
        Seq::filter_distributes_over_add(head.push(x), tail, keep);
        assert(list =~= front.push(x));
        assert(list.filter(keep) == (if keep(x) {
            front.filter(keep).push(x)
        } else {
            front.filter(keep)
        })) by {
            reveal(Seq::filter);
        }
        assert(head.push(x).filter(keep) == (if keep(x) {
            head.filter(keep).push(x)
        } else {
            head.filter(keep)
        })) by {
            reveal(Seq::filter);
            assert(head.push(x).drop_last() =~= head);
        }
        if keep(x) {
            assert forall|i: int| 0 <= i < tail.len() implies !keep(#[trigger] tail[i]) by {
                assert(tail[i] == sorted[place + i]);
                assert(stands_after(sorted[place], x));
                if i > 0 {
                    assert(!stands_after(sorted[place], sorted[place + i]));
                }
                text::lemma_precedes_total(key, key);
            }
            lemma_filter_none(tail, keep);
            assert(head.filter(keep) + tail.filter(keep) =~= head.filter(keep));
            assert(head.filter(keep).push(x) + tail.filter(keep) =~= head.filter(keep).push(x));
        }
    }
}

/// A filter that nothing passes keeps nothing.
proof fn lemma_filter_none(s: Seq<SavedFilter>, keep: spec_fn(SavedFilter) -> bool)
    requires
        forall|i: int| 0 <= i < s.len() ==> !keep(#[trigger] s[i]),
    ensures
        s.filter(keep) == Seq::<SavedFilter>::empty(),
    decreases s.len(),
{
    reveal(Seq::filter);
    if s.len() > 0 {
        lemma_filter_none(s.drop_last(), keep);
    } else {
        assert(s.filter(keep) =~= seq![]);
    }
}

/// The list is sorted by the names in lower case, and holds each filter as often as it
/// was in the list before.
pub proof fn lemma_sorted_by_name(list: Seq<SavedFilter>, i: int, j: int, x: SavedFilter)
    ensures
        0 <= i < j < list.len() ==> !text::precedes(
            lowercase(in_order(list)[j].name@),
            lowercase(in_order(list)[i].name@),
        ),
        in_order(list).len() == list.len(),
        in_order(list).to_multiset().count(x) == list.to_multiset().count(x),
{
    lemma_in_order(list);
    if 0 <= i < j < list.len() {
        assert(!stands_after(in_order(list)[i], in_order(list)[j]));
    }
}

} // verus!
