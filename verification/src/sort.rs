//! The canonical order of a lock list: by binding name, entries of one name
//! staying in the order in which they were written.

use vstd::prelude::*;
use vstd::seq_lib::*;

use crate::item::{LockItem, LockItemView};
use crate::order::{
    lemma_name_le_antisymmetric, lemma_name_le_reflexive, lemma_name_le_total,
    lemma_name_le_transitive, name_le, name_precedes,
};

verus! {

/// Selects the items bound to `name`.
pub open spec fn named(name: Seq<char>) -> spec_fn(LockItemView) -> bool {
    |item: LockItemView| item.last_identifier == name
}

/// No item stands before one whose binding name comes earlier.
pub open spec fn sorted_by_name(items: Seq<LockItemView>) -> bool {
    forall|i: int, j: int|
        0 <= i < j < items.len() ==> name_le(
            (#[trigger] items[i]).last_identifier,
            (#[trigger] items[j]).last_identifier,
        )
}

/// `sorted` holds the items of `items`, each as often as `items` does, in the
/// order of their binding names, and for every name the items bound to it
/// follow one another as they do in `items`.
pub open spec fn is_stable_sort_of(sorted: Seq<LockItemView>, items: Seq<LockItemView>) -> bool {
    &&& sorted_by_name(sorted)
    &&& sorted.to_multiset() == items.to_multiset()
    &&& forall|name: Seq<char>| #[trigger]
        sorted.filter(named(name)) == items.filter(named(name))
}

/// The items in canonical order.
pub open spec fn sort_by_name(items: Seq<LockItemView>) -> Seq<LockItemView> {
    choose|sorted: Seq<LockItemView>| is_stable_sort_of(sorted, items)
}

proof fn lemma_filter_none<A>(s: Seq<A>, pred: spec_fn(A) -> bool)
    requires
        forall|i: int| 0 <= i < s.len() ==> !pred(#[trigger] s[i]),
    ensures
        s.filter(pred) == Seq::<A>::empty(),
    decreases s.len(),
{
    reveal(Seq::filter);
    if s.len() > 0 {
        lemma_filter_none(s.drop_last(), pred);
    }
}

/// Putting one more item into a sorted list, behind the items that may stand
/// before it and in front of those that must come after it, sorts the list
/// that has this item at its end.
pub proof fn lemma_insert_keeps_stable_sort(
    sorted: Seq<LockItemView>,
    items: Seq<LockItemView>,
    item: LockItemView,
    at: int,
)
    requires
        is_stable_sort_of(sorted, items),
        0 <= at <= sorted.len(),
        forall|k: int|
            0 <= k < at ==> name_le((#[trigger] sorted[k]).last_identifier, item.last_identifier),
        forall|k: int|
            at <= k < sorted.len() ==> !name_le(
                (#[trigger] sorted[k]).last_identifier,
                item.last_identifier,
            ),
    ensures
        is_stable_sort_of(sorted.insert(at, item), items.push(item)),
{
    let longer = sorted.insert(at, item);
    let front = sorted.take(at);
    let back = sorted.skip(at);
    assert forall|i: int, j: int| 0 <= i < j < longer.len() implies name_le(
        (#[trigger] longer[i]).last_identifier,
        (#[trigger] longer[j]).last_identifier,
    ) by {
        if i == at {
            lemma_name_le_total(sorted[j - 1].last_identifier, item.last_identifier);
        }
    }
    assert(longer.to_multiset() == items.push(item).to_multiset()) by {
        to_multiset_insert(sorted, at, item);
        items.to_multiset_ensures();
    }
    assert forall|name: Seq<char>| #[trigger]
        longer.filter(named(name)) == items.push(item).filter(named(name)) by {
        let pred = named(name);
        assert(sorted =~= front + back);
        assert(longer =~= front + seq![item] + back);
        items.lemma_filter_push(item, pred);
        Seq::<LockItemView>::empty().lemma_filter_push(item, pred);
        assert(sorted.filter(pred) == items.filter(pred));
        if pred(item) {
            assert forall|k: int| 0 <= k < back.len() implies !pred(#[trigger] back[k]) by {
                lemma_name_le_reflexive(item.last_identifier);
            }
            lemma_filter_none(back, pred);
        }
    }
}

/// Where a new item of the given name goes in a sorted list: behind the last
/// item that may stand before it.
spec fn insertion_point(sorted: Seq<LockItemView>, name: Seq<char>) -> int
    decreases sorted.len(),
{
    if sorted.len() == 0 || name_le(sorted.last().last_identifier, name) {
        sorted.len() as int
    } else {
        insertion_point(sorted.drop_last(), name)
    }
}

proof fn lemma_insertion_point(sorted: Seq<LockItemView>, name: Seq<char>)
    requires
        sorted_by_name(sorted),
    ensures
        0 <= insertion_point(sorted, name) <= sorted.len(),
        forall|k: int|
            0 <= k < insertion_point(sorted, name) ==> name_le(
                (#[trigger] sorted[k]).last_identifier,
                name,
            ),
        forall|k: int|
            insertion_point(sorted, name) <= k < sorted.len() ==> !name_le(
                (#[trigger] sorted[k]).last_identifier,
                name,
            ),
    decreases sorted.len(),
{
    if sorted.len() == 0 {
    } else if name_le(sorted.last().last_identifier, name) {
        assert forall|k: int| 0 <= k < sorted.len() implies name_le(
            (#[trigger] sorted[k]).last_identifier,
            name,
        ) by {
            if k < sorted.len() - 1 {
                lemma_name_le_transitive(
                    sorted[k].last_identifier,
                    sorted.last().last_identifier,
                    name,
                );
            }
        }
    } else {
        let shorter = sorted.drop_last();
        lemma_insertion_point(shorter, name);
        assert forall|k: int| 0 <= k < insertion_point(sorted, name) implies name_le(
            (#[trigger] sorted[k]).last_identifier,
            name,
        ) by {
            assert(sorted[k] == shorter[k]);
        }
        assert forall|k: int| insertion_point(sorted, name) <= k < sorted.len() implies !name_le(
            (#[trigger] sorted[k]).last_identifier,
            name,
        ) by {
            if k < sorted.len() - 1 {
                assert(sorted[k] == shorter[k]);
            }
        }
    }
}

/// Every list has a canonical order.
pub proof fn lemma_stable_sort_exists(items: Seq<LockItemView>)
    ensures
        exists|sorted: Seq<LockItemView>| is_stable_sort_of(sorted, items),
    decreases items.len(),
{
    if items.len() == 0 {
        assert(is_stable_sort_of(items, items));
    } else {
        let shorter = items.drop_last();
        lemma_stable_sort_exists(shorter);
        let sorted = choose|sorted: Seq<LockItemView>| is_stable_sort_of(sorted, shorter);
        let at = insertion_point(sorted, items.last().last_identifier);
        lemma_insertion_point(sorted, items.last().last_identifier);
        lemma_insert_keeps_stable_sort(sorted, shorter, items.last(), at);
        assert(shorter.push(items.last()) =~= items);
    }
}

/// Two sorted lists that agree, name by name, on the items bound to it are
/// the same list.
pub proof fn lemma_sorted_lists_agree(a: Seq<LockItemView>, b: Seq<LockItemView>)
    requires
        sorted_by_name(a),
        sorted_by_name(b),
        forall|name: Seq<char>| #[trigger] a.filter(named(name)) == b.filter(named(name)),
    ensures
        a == b,
    decreases a.len() + b.len(),
{
    if a.len() == 0 || b.len() == 0 {
        if a.len() + b.len() > 0 {
            // The last item of the list that has one is found under its name
            // in that list, and so in the other.
            let full = if a.len() == 0 { b } else { a };
            let name = full.last().last_identifier;
            assert(full =~= full.drop_last().push(full.last()));
            full.drop_last().lemma_filter_push(full.last(), named(name));
            assert(a.filter(named(name)) == b.filter(named(name)));
        }
    } else {
        let za = a.last();
        let zb = b.last();
        let na = za.last_identifier;
        let nb = zb.last_identifier;
        assert(a =~= a.drop_last().push(za));
        assert(b =~= b.drop_last().push(zb));
        lemma_last_name_is_greatest(a, b);
        lemma_last_name_is_greatest(b, a);
        lemma_name_le_antisymmetric(na, nb);
        assert forall|name: Seq<char>| #[trigger]
            a.drop_last().filter(named(name)) == b.drop_last().filter(named(name)) by {
            a.drop_last().lemma_filter_push(za, named(name));
            b.drop_last().lemma_filter_push(zb, named(name));
            if name == na {
                let fb = b.drop_last().filter(named(name));
                assert(fb =~= fb.push(zb).drop_last());
            }
        }
        assert(za == zb) by {
            a.drop_last().lemma_filter_push(za, named(na));
            b.drop_last().lemma_filter_push(zb, named(na));
            let fb = b.drop_last().filter(named(na));
            assert(fb.push(zb).last() == zb);
        }
        lemma_sorted_lists_agree(a.drop_last(), b.drop_last());
    }
}

/// The name of the last item of `a` occurs in `b`, so it is no later than the
/// name of the last item of `b`.
proof fn lemma_last_name_is_greatest(a: Seq<LockItemView>, b: Seq<LockItemView>)
    requires
        a.len() > 0,
        b.len() > 0,
        sorted_by_name(b),
        a.filter(named(a.last().last_identifier)) == b.filter(named(a.last().last_identifier)),
    ensures
        name_le(a.last().last_identifier, b.last().last_identifier),
{
    let name = a.last().last_identifier;
    let pred = named(name);
    assert(a =~= a.drop_last().push(a.last()));
    a.drop_last().lemma_filter_push(a.last(), pred);
    assert(b.filter(pred).last() == a.last());
    b.lemma_filter_contains_rev(pred, a.last());
    let k = choose|k: int| 0 <= k < b.len() && b[k] == a.last();
    if k == b.len() - 1 {
        lemma_name_le_reflexive(name);
    }
}

/// A list has one canonical order only.
pub proof fn lemma_stable_sort_unique(
    a: Seq<LockItemView>,
    b: Seq<LockItemView>,
    items: Seq<LockItemView>,
)
    requires
        is_stable_sort_of(a, items),
        is_stable_sort_of(b, items),
    ensures
        a == b,
{
    lemma_sorted_lists_agree(a, b);
}

/// The canonical order of a list is sorted, holds the same items, and keeps
/// the items of one name in the order in which they were written.
pub proof fn lemma_sort_by_name(items: Seq<LockItemView>)
    ensures
        is_stable_sort_of(sort_by_name(items), items),
        sort_by_name(items).len() == items.len(),
{
    lemma_stable_sort_exists(items);
    sort_by_name(items).to_multiset_ensures();
    items.to_multiset_ensures();
}

/// Whatever is sorted, holds the same items and keeps the items of one name
/// in the order in which they were written is the canonical order.
pub proof fn lemma_sort_by_name_is(sorted: Seq<LockItemView>, items: Seq<LockItemView>)
    requires
        is_stable_sort_of(sorted, items),
    ensures
        sorted == sort_by_name(items),
{
    lemma_stable_sort_unique(sorted, sort_by_name(items), items);
}

/// The canonical order holds an item if and only if the list does.
pub proof fn lemma_sort_keeps_items(items: Seq<LockItemView>)
    ensures
        forall|item: LockItemView|
            #![trigger sort_by_name(items).contains(item)]
            #![trigger items.contains(item)]
            sort_by_name(items).contains(item) <==> items.contains(item),
{
    lemma_sort_by_name(items);
    items.to_multiset_ensures();
    sort_by_name(items).to_multiset_ensures();
    assert forall|item: LockItemView| #[trigger]
        sort_by_name(items).contains(item) <==> items.contains(item) by {
        assert(sort_by_name(items).to_multiset().count(item) == items.to_multiset().count(item));
    }
}

/// A sorted list is its own canonical order, so sorting twice is sorting
/// once.
pub proof fn lemma_sort_idempotent(items: Seq<LockItemView>)
    ensures
        sorted_by_name(items) ==> sort_by_name(items) == items,
        sort_by_name(sort_by_name(items)) == sort_by_name(items),
{
    lemma_sort_by_name(items);
    if sorted_by_name(items) {
        lemma_sort_by_name_is(items, items);
    }
    lemma_sort_by_name_is(sort_by_name(items), sort_by_name(items));
}

/// No two items are bound to the same name.
pub open spec fn distinct_names(items: Seq<LockItemView>) -> bool {
    forall|i: int, j: int|
        0 <= i < j < items.len() ==> (#[trigger] items[i]).last_identifier
            != (#[trigger] items[j]).last_identifier
}

/// A list that holds the items of a list without a repeated name has no
/// repeated name either.
pub proof fn lemma_distinct_names_kept(items: Seq<LockItemView>, other: Seq<LockItemView>)
    requires
        distinct_names(items),
        other.to_multiset() == items.to_multiset(),
    ensures
        distinct_names(other),
{
    items.to_multiset_ensures();
    other.to_multiset_ensures();
    items.lemma_multiset_has_no_duplicates();
    other.lemma_multiset_has_no_duplicates_conv();
    assert forall|i: int, j: int| 0 <= i < j < other.len() implies (#[trigger] other[i]).last_identifier
        != (#[trigger] other[j]).last_identifier by {
        assert(items.to_multiset().count(other[i]) > 0);
        assert(items.to_multiset().count(other[j]) > 0);
        let p = choose|p: int| 0 <= p < items.len() && items[p] == other[i];
        let q = choose|q: int| 0 <= q < items.len() && items[q] == other[j];
        assert(other[i] != other[j]);
        assert(p != q);
    }
}

/// Two sorted lists that hold the same items, no two of them bound to the
/// same name, are the same list.
pub proof fn lemma_sorted_distinct_agree(a: Seq<LockItemView>, b: Seq<LockItemView>)
    requires
        sorted_by_name(a),
        sorted_by_name(b),
        distinct_names(a),
        distinct_names(b),
        a.to_multiset() == b.to_multiset(),
    ensures
        a == b,
    decreases a.len(),
{
    a.to_multiset_ensures();
    b.to_multiset_ensures();
    if a.len() > 0 {
        let za = a.last();
        let zb = b.last();
        assert(za == zb) by {
            // Each list holds the last item of the other. Were they two
            // items, each name would come no later than the other.
            assert(b.to_multiset().count(za) > 0 && b.contains(za));
            assert(a.to_multiset().count(zb) > 0 && a.contains(zb));
            let k = choose|k: int| 0 <= k < b.len() && b[k] == za;
            let m = choose|m: int| 0 <= m < a.len() && a[m] == zb;
            if k < b.len() - 1 && m < a.len() - 1 {
                lemma_name_le_antisymmetric(za.last_identifier, zb.last_identifier);
            }
        }
        let ra = a.drop_last();
        let rb = b.drop_last();
        assert(a =~= ra.push(za));
        assert(b =~= rb.push(zb));
        ra.to_multiset_ensures();
        rb.to_multiset_ensures();
        assert(ra.to_multiset() =~= rb.to_multiset()) by {
            assert(rb.to_multiset() =~= b.to_multiset().remove(zb));
        }
        lemma_sorted_distinct_agree(ra, rb);
    }
}

/// The canonical order does not depend on the order in which the items were
/// written, as long as no two of them are bound to the same name.
pub proof fn lemma_sort_ignores_order(a: Seq<LockItemView>, b: Seq<LockItemView>)
    requires
        distinct_names(a),
        a.to_multiset() == b.to_multiset(),
    ensures
        sort_by_name(a) == sort_by_name(b),
{
    lemma_sort_by_name(a);
    lemma_sort_by_name(b);
    lemma_distinct_names_kept(a, sort_by_name(a));
    lemma_distinct_names_kept(a, sort_by_name(b));
    lemma_sorted_distinct_agree(sort_by_name(a), sort_by_name(b));
}

/// Puts the items into canonical order.
pub fn sort_items(items: &mut Vec<LockItem>)
    ensures
        final(items).deep_view() == sort_by_name(old(items).deep_view()),
        is_stable_sort_of(final(items).deep_view(), old(items).deep_view()),
{
    let ghost given = items.deep_view();
    let n = items.len();
    let mut i: usize = 0;
    while i < n
        invariant
            i <= n,
            n == items.len(),
            given.len() == n,
            is_stable_sort_of(items.deep_view().take(i as int), given.take(i as int)),
            items.deep_view().skip(i as int) == given.skip(i as int),
        decreases n - i,
    {
        let ghost sorted = items.deep_view().take(i as int);
        let item = items.remove(i);
        let ghost held = items.deep_view();
        let mut at: usize = i;
        while at > 0 && !name_precedes(
            items[at - 1].last_identifier.as_str(),
            item.last_identifier.as_str(),
        )
            invariant
                at <= i,
                i < n,
                items.len() == n - 1,
                items.deep_view() == held,
                forall|k: int|
                    at <= k < i ==> !name_le(
                        (#[trigger] held[k]).last_identifier,
                        item@.last_identifier,
                    ),
            decreases at,
        {
            at -= 1;
        }
        items.insert(at, item);
        proof {
            assert forall|k: int| 0 <= k < at implies name_le(
                (#[trigger] sorted[k]).last_identifier,
                item@.last_identifier,
            ) by {
                if k < at - 1 {
                    lemma_name_le_transitive(
                        sorted[k].last_identifier,
                        sorted[at - 1].last_identifier,
                        item@.last_identifier,
                    );
                }
            }
            assert forall|k: int| at <= k < sorted.len() implies !name_le(
                (#[trigger] sorted[k]).last_identifier,
                item@.last_identifier,
            ) by {
                assert(sorted[k] == held[k]);
            }
            lemma_insert_keeps_stable_sort(sorted, given.take(i as int), item@, at as int);
            assert(given.take(i as int).push(item@) =~= given.take(i + 1)) by {
                assert(given[i as int] == given.skip(i as int)[0]);
            }
            assert(items.deep_view().take(i + 1) =~= sorted.insert(at as int, item@));
            assert(items.deep_view().skip(i + 1) =~= given.skip(i + 1)) by {
                let tail = items.deep_view().skip(i + 1);
                assert forall|k: int| 0 <= k < n - (i + 1) implies #[trigger] tail[k]
                    == given.skip(i + 1)[k] by {
                    assert(given.skip(i as int)[k + 1] == given[i + k + 1]);
                }
            }
        }
        i += 1;
    }
    proof {
        assert(items.deep_view().take(n as int) =~= items.deep_view());
        assert(given.take(n as int) =~= given);
        lemma_sort_by_name_is(items.deep_view(), given);
    }
}

} // verus!
