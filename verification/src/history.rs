//! The history of queries.

use vstd::prelude::*;

use crate::text::{equal, is_blank};
use crate::text;

verus! {

/// The number of queries that are remembered.
pub const HISTORY_LIMIT: usize = 500;

/// Every text but one.
pub open spec fn other_than(query: Seq<char>) -> spec_fn(Seq<char>) -> bool {
    |entry: Seq<char>| entry != query
}

/// The first entries, as many as are remembered.
pub open spec fn remembered(entries: Seq<Seq<char>>) -> Seq<Seq<char>> {
    if entries.len() > HISTORY_LIMIT {
        entries.take(HISTORY_LIMIT as int)
    } else {
        entries
    }
}

/// The history after a query: it stands in front, exactly as it was written, and
/// nowhere else. A blank query changes nothing.
pub open spec fn recorded(entries: Seq<Seq<char>>, query: Seq<char>) -> Seq<Seq<char>> {
    if text::blank(query) {
        entries
    } else {
        remembered(seq![query] + entries.filter(other_than(query)))
    }
}

/// Records a query.
pub fn record(entries: &mut Vec<String>, query: &str)
    ensures
        text::texts(final(entries)@) == recorded(text::texts(old(entries)@), query@),
{
    if is_blank(query) {
        return;
    }
    let ghost before = text::texts(entries@);
    let ghost keep = other_than(query@);
    let mut rest: Vec<String> = Vec::new();
    rest.push(query.to_owned());
    let mut i: usize = 0;
    proof {
        assert(before.take(0).filter(keep) =~= seq![]) by {
            reveal(Seq::filter);
        }
        assert(text::texts(rest@) =~= seq![query@] + before.take(0).filter(keep));
    }
    while i < entries.len()
        invariant
            i <= entries@.len(),
            before == text::texts(entries@),
            keep == other_than(query@),
            text::texts(rest@) == seq![query@] + before.take(i as int).filter(keep),
        decreases entries@.len() - i,
    {
        proof {
            crate::model::lemma_filter_step(before, keep, i as int);
            assert(before[i as int] == entries@[i as int]@);
        }
        if !equal(entries[i].as_str(), query) {
            let entry = entries[i].clone();
            let ghost kept = rest@;
            proof {
                assert(text::texts(kept.push(entry)) =~= text::texts(kept).push(entry@));
                assert((seq![query@] + before.take(i as int).filter(keep)).push(entry@) =~= seq![
                    query@,
                ] + before.take(i as int).filter(keep).push(entry@));
            }
            rest.push(entry);
        }
        i += 1;
    }
    let ghost all = text::texts(rest@);
    assert(before.take(i as int) =~= before);
    if rest.len() > HISTORY_LIMIT {
        rest.truncate(HISTORY_LIMIT);
        assert(text::texts(rest@) =~= all.take(HISTORY_LIMIT as int));
    }
    *entries = rest;
}

/// A recorded query stands in front, recording it twice is recording it once, and a
/// history without repetition stays without. The history is within its limit then; a
/// blank query leaves it as it is.
pub proof fn lemma_history(entries: Seq<Seq<char>>, query: Seq<char>)
    ensures
        !text::blank(query) ==> recorded(entries, query).len() <= HISTORY_LIMIT,
        text::blank(query) ==> recorded(entries, query) == entries,
        entries.no_duplicates() ==> recorded(entries, query).no_duplicates(),
        !text::blank(query) ==> recorded(entries, query).len() > 0 && recorded(entries, query)[0]
            == query,
        recorded(recorded(entries, query), query) == recorded(entries, query),
{
    let keep = other_than(query);
    if !text::blank(query) {
        let rest = entries.filter(keep);
        let all = seq![query] + rest;
        if entries.no_duplicates() {
            lemma_filter_distinct(entries, keep);
        }
        assert(!rest.contains(query)) by {
            crate::model::lemma_filter_holds(entries, keep, query);
        }
        assert(entries.no_duplicates() ==> all.no_duplicates()) by {
            assert forall|i: int, j: int|
                entries.no_duplicates() && 0 <= i < all.len() && 0 <= j < all.len() && i
                    != j implies all[i] != all[j] by {
                if i == 0 {
                    assert(rest.contains(all[j])) by {
                        assert(rest[j - 1] == all[j]);
                    }
                } else if j == 0 {
                    assert(rest.contains(all[i])) by {
                        assert(rest[i - 1] == all[i]);
                    }
                } else {
                    assert(rest[i - 1] == all[i] && rest[j - 1] == all[j]);
                }
            }
        }
        let once = remembered(all);
        let tail = once.drop_first();
        assert forall|i: int| 0 <= i < tail.len() implies keep(#[trigger] tail[i]) by {
            assert(tail[i] == rest[i]);
            assert(rest.contains(tail[i]));
        }
        lemma_filter_all(tail, keep);
        assert(once =~= seq![query] + tail);
        assert(seq![query].filter(keep) =~= seq![]) by {
            reveal(Seq::filter);
            assert(seq![query].drop_last().filter(keep) =~= seq![]);
        }
        Seq::filter_distributes_over_add(seq![query], tail, keep);
        assert(once.filter(keep) =~= tail);
        assert(seq![query] + once.filter(keep) =~= once);
    }
}

/// A filter that everything passes keeps everything.
proof fn lemma_filter_all(s: Seq<Seq<char>>, keep: spec_fn(Seq<char>) -> bool)
    requires
        forall|i: int| 0 <= i < s.len() ==> keep(#[trigger] s[i]),
    ensures
        s.filter(keep) == s,
    decreases s.len(),
{
    reveal(Seq::filter);
    if s.len() > 0 {
        lemma_filter_all(s.drop_last(), keep);
        assert(s =~= s.drop_last().push(s.last()));
    } else {
        assert(s.filter(keep) =~= s);
    }
}

/// Filtering brings in no repetition.
proof fn lemma_filter_distinct(s: Seq<Seq<char>>, keep: spec_fn(Seq<char>) -> bool)
    requires
        s.no_duplicates(),
    ensures
        s.filter(keep).no_duplicates(),
        s.filter(keep).len() <= s.len(),
    decreases s.len(),
{
    reveal(Seq::filter);
    if s.len() > 0 {
        let t = s.drop_last();
        assert(t.no_duplicates()) by {
            assert forall|i: int, j: int|
                0 <= i < t.len() && 0 <= j < t.len() && i != j implies t[i] != t[j] by {
                assert(s[i] != s[j]);
            }
        }
        lemma_filter_distinct(t, keep);
        if keep(s.last()) {
            let f = t.filter(keep);
            let g = s.filter(keep);
            assert(!f.contains(s.last())) by {
                crate::model::lemma_filter_holds(t, keep, s.last());
                if t.contains(s.last()) {
                    let i = choose|i: int| 0 <= i < t.len() && t[i] == s.last();
                    assert(s[i] == s[s.len() - 1]);
                }
            }
            assert forall|i: int, j: int|
                0 <= i < g.len() && 0 <= j < g.len() && i != j implies g[i] != g[j] by {
                if i == f.len() {
                    assert(f.contains(f[j]));
                } else if j == f.len() {
                    assert(f.contains(f[i]));
                }
            }
        }
    }
}

/// A query that was recorded before moves to the front, a new one is put there, and the
/// others keep their order. Beyond five hundred the oldest goes.
pub proof fn lemma_query_moves_to_the_front(
    first: Seq<Seq<char>>,
    second: Seq<Seq<char>>,
    query: Seq<char>,
)
    requires
        !text::blank(query),
        !first.contains(query),
        !second.contains(query),
    ensures
        first.len() + second.len() < 500 ==> {
            &&& recorded(first + seq![query] + second, query) == seq![query] + first + second
            &&& recorded(first + second, query) == seq![query] + first + second
        },
        first.len() >= 500 ==> recorded(first, query) == seq![query] + first.take(499),
{
    let keep = other_than(query);
    let one = seq![query];
    assert forall|i: int| 0 <= i < first.len() implies keep(#[trigger] first[i]) by {
        assert(first.contains(first[i]));
    }
    assert forall|i: int| 0 <= i < second.len() implies keep(#[trigger] second[i]) by {
        assert(second.contains(second[i]));
    }
    lemma_filter_all(first, keep);
    lemma_filter_all(second, keep);
    assert(one.filter(keep) =~= seq![]) by {
        reveal(Seq::filter);
        assert(one.drop_last().filter(keep) =~= seq![]);
    }
    Seq::filter_distributes_over_add(first + one, second, keep);
    Seq::filter_distributes_over_add(first, one, keep);
    Seq::filter_distributes_over_add(first, second, keep);
    assert((first + one + second).filter(keep) =~= first + second);
    assert((first + second).filter(keep) =~= first + second);
    assert(one + (first + second) =~= one + first + second);
    if first.len() >= 500 {
        assert((one + first).take(500) =~= one + first.take(499));
    }
}

} // verus!
