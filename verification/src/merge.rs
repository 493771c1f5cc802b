//! Merging tables. Where several tables hold a key, the first of them in
//! the sequence gives the value.

use vstd::prelude::*;
use vstd::slice::slice_subrange;
use crate::index::{entry_with_key, TableEntry};
use crate::table::LocaleTable;

verus! {

/// The merge of the first `n` maps: each key with the value of the first
/// map that holds it.
pub open spec fn merged_below(views: Seq<Map<u64, Seq<u8>>>, n: int) -> Map<u64, Seq<u8>>
    decreases n,
{
    if n <= 0 {
        Map::empty()
    } else {
        views[n - 1].union_prefer_right(merged_below(views, n - 1))
    }
}

/// The merge of a sequence of maps: each key with the value of the first
/// map that holds it.
pub open spec fn merged_view(views: Seq<Map<u64, Seq<u8>>>) -> Map<u64, Seq<u8>> {
    merged_below(views, views.len() as int)
}

/// The tables as maps from key hash to value bytes.
pub open spec fn views_of(tables: Seq<&LocaleTable>) -> Seq<Map<u64, Seq<u8>>> {
    Seq::new(tables.len(), |i: int| tables[i]@)
}

/// A key is in the merge of the first `n` maps exactly when one of them
/// holds it, and its value is that of the first one that does.
pub proof fn merge_takes_first_holder(views: Seq<Map<u64, Seq<u8>>>, n: int, hash: u64)
    requires
        0 <= n <= views.len(),
    ensures
        merged_below(views, n).dom().contains(hash) <==> exists|i: int|
            0 <= i < n && #[trigger] views[i].dom().contains(hash),
        forall|i: int|
            0 <= i < n && #[trigger] views[i].dom().contains(hash) && (forall|j: int|
                0 <= j < i ==> !#[trigger] views[j].dom().contains(hash)) ==> merged_below(
                views,
                n,
            )[hash] == views[i][hash],
    decreases n,
{
    if n > 0 {
        merge_takes_first_holder(views, n - 1, hash);
        if merged_below(views, n - 1).dom().contains(hash) {
            let i = choose|i: int| 0 <= i < n - 1 && #[trigger] views[i].dom().contains(hash);
            assert(views[i].dom().contains(hash));
        } else if views[n - 1].dom().contains(hash) {
            assert(merged_below(views, n).dom().contains(hash));
        }
    }
}

/// Merging is by precedence: a key that the first of two tables holds keeps
/// that table's value, whatever the second holds; a key that only the
/// second holds takes the second's value.
pub proof fn merge_of_two_prefers_first(
    first: Map<u64, Seq<u8>>,
    second: Map<u64, Seq<u8>>,
    hash: u64,
)
    ensures
        first.dom().contains(hash) ==> merged_view(seq![first, second])[hash] == first[hash],
        !first.dom().contains(hash) && second.dom().contains(hash) ==> merged_view(
            seq![first, second],
        )[hash] == second[hash],
        merged_view(seq![first, second]).dom().contains(hash) <==> first.dom().contains(hash)
            || second.dom().contains(hash),
{
    let views = seq![first, second];
    assert(views[0] == first && views[1] == second);
    assert(merged_below(views, 0) =~= Map::<u64, Seq<u8>>::empty());
    assert(merged_below(views, 1) =~= first);
    assert(merged_below(views, 2) == second.union_prefer_right(merged_below(views, 1)));
}

/// Merges tables into a new one. Every key hash that some table holds is
/// in the result, with the value of the first table that holds it. The
/// values are copied into a fresh buffer in the order in which they were
/// taken up. The given tables are not changed.
pub fn merge_locale_table_internal(tables: &[&LocaleTable]) -> (merged: LocaleTable)
    requires
        forall|i: int| 0 <= i < tables@.len() ==> (#[trigger] tables@[i]).wf(),
    ensures
        merged.wf(),
        merged.is_packed(),
        merged@ == merged_view(views_of(tables@)),
{
    let mut result = LocaleTable::new();
    let ghost views = views_of(tables@);
    let mut t: usize = 0;
    while t < tables.len()
        invariant
            t <= tables.len(),
            views == views_of(tables@),
            forall|i: int| 0 <= i < tables@.len() ==> (#[trigger] tables@[i]).wf(),
            result.wf(),
            result.is_packed(),
            result@ == merged_below(views, t as int),
        decreases tables.len() - t,
    {
        let source: &LocaleTable = tables[t];
        assert(source == tables@[t as int]);
        assert(source.wf());
        let list = source.entry_list();
        let buffer = source.value_buffer();
        let size = buffer.len();
        let ghost before = result@;
        let mut j: usize = 0;
        proof {
            list@.to_multiset_ensures();
        }
        while j < list.len()
            invariant
                j <= list.len(),
                source.wf(),
                buffer@ == source.buffer(),
                size == buffer@.len(),
                list@.to_multiset() == source.entry_set(),
                result.wf(),
                result.is_packed(),
                forall|h: u64|
                    #[trigger] result@.dom().contains(h) <==> before.dom().contains(h) || exists|
                        m: int,
                    |
                        0 <= m < j && (#[trigger] list@[m]).key == h,
                forall|h: u64|
                    #[trigger] result@.dom().contains(h) ==> result@[h] == if before.dom().contains(
                        h,
                    ) {
                        before[h]
                    } else {
                        source@[h]
                    },
            decreases list.len() - j,
        {
            let entry: TableEntry = list[j];
            proof {
                list@.to_multiset_ensures();
                assert(list@.contains(entry));
                assert(source.entry_set().contains(entry));
                source.lemma_entry_value(entry);
            }
            let value = slice_subrange(buffer, entry.offset, entry.offset + entry.length);
            let ghost earlier = result@;
            let _ = result.insert_value(entry.key, value);
            proof {
                assert forall|h: u64| #[trigger]
                    result@.dom().contains(h) <==> before.dom().contains(h) || exists|m: int|
                        0 <= m < j + 1 && (#[trigger] list@[m]).key == h by {
                    if earlier.dom().contains(h) && !before.dom().contains(h) {
                        let m = choose|m: int| 0 <= m < j && (#[trigger] list@[m]).key == h;
                        assert(0 <= m < j + 1 && list@[m].key == h);
                    }
                    if h == entry.key {
                        assert(list@[j as int].key == h);
                    }
                    if exists|m: int| 0 <= m < j + 1 && (#[trigger] list@[m]).key == h {
                        let m = choose|m: int| 0 <= m < j + 1 && (#[trigger] list@[m]).key == h;
                        if m < j {
                            assert(earlier.dom().contains(h));
                        }
                    }
                }
            }
            j += 1;
        }
        proof {
            let next = source@.union_prefer_right(before);
            assert(views[t as int] == source@);
            assert forall|h: u64| result@.dom().contains(h) <==> next.dom().contains(h) by {
                if source@.dom().contains(h) {
                    let e = entry_with_key(source.entry_set(), h);
                    assert(source.entry_set().contains(e) && e.key == h);
                    list@.to_multiset_ensures();
                    assert(list@.contains(e));
                    let m = choose|m: int| 0 <= m < list@.len() && list@[m] == e;
                    assert(list@[m].key == h);
                }
                if result@.dom().contains(h) && !before.dom().contains(h) {
                    let m = choose|m: int| 0 <= m < j && (#[trigger] list@[m]).key == h;
                    list@.to_multiset_ensures();
                    assert(list@.contains(list@[m]));
                    source.lemma_entry_value(list@[m]);
                }
            }
            assert forall|h: u64| #[trigger] result@.dom().contains(h) implies result@[h]
                == next[h] by {
                assert(next.dom().contains(h));
            }
            assert(result@.dom() =~= next.dom());
            assert(result@ =~= next);
        }
        t += 1;
    }
    result
}

} // verus!
