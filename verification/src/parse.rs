//! Reading a lock list: `[mut] path [, [mut] path]*`, given as the texts of
//! its tokens.

use vstd::prelude::*;

use crate::item::{LockItem, LockItemView};
use crate::order::same_text;

verus! {

/// The token that marks a binding as mutable.
pub open spec fn is_mut_marker(token: Seq<char>) -> bool {
    token == "mut"@
}

/// The token that ends an entry.
pub open spec fn is_separator(token: Seq<char>) -> bool {
    token == ","@
}

/// The tokens of a list, entry by entry: the runs of tokens between
/// separators. There is always a last run, which is empty when the list is
/// empty or ends with a separator.
pub open spec fn entries(tokens: Seq<Seq<char>>) -> Seq<Seq<Seq<char>>>
    decreases tokens.len(),
{
    if tokens.len() == 0 {
        seq![Seq::empty()]
    } else {
        let before = entries(tokens.drop_last());
        if is_separator(tokens.last()) {
            before.push(Seq::empty())
        } else {
            before.drop_last().push(before.last().push(tokens.last()))
        }
    }
}

/// Selects the tokens that belong to a path.
pub open spec fn in_path() -> spec_fn(Seq<char>) -> bool {
    |token: Seq<char>| !is_mut_marker(token)
}

/// The tokens of an entry's path: all but the markers.
pub open spec fn path_tokens(entry: Seq<Seq<char>>) -> Seq<Seq<char>> {
    entry.filter(in_path())
}

/// What one entry says: its path is its path tokens written one after the
/// other, its binding name is the last of them, and it is mutable when a
/// marker stands in it.
pub open spec fn entry_item(entry: Seq<Seq<char>>) -> LockItemView {
    let path = path_tokens(entry);
    LockItemView {
        last_identifier: if path.len() == 0 {
            Seq::empty()
        } else {
            path.last()
        },
        full_identifier: path.flatten(),
        mutable: entry.contains("mut"@),
    }
}

/// The items of a token list, in the order in which they are written. The
/// last run of tokens gives an item unless nothing was read for it.
pub open spec fn parsed(tokens: Seq<Seq<char>>) -> Seq<LockItemView> {
    let items = entries(tokens).map_values(|entry: Seq<Seq<char>>| entry_item(entry));
    if items.last() == LockItemView::empty() {
        items.drop_last()
    } else {
        items
    }
}

/// An entry as it is meant to be written: at most one marker, at its very
/// start, and then a path whose last token is not empty.
pub open spec fn well_formed_entry(entry: Seq<Seq<char>>) -> bool {
    &&& entry.len() > 0
    &&& !is_mut_marker(entry.last())
    &&& entry.last().len() > 0
    &&& forall|i: int| 1 <= i < entry.len() ==> !is_mut_marker(#[trigger] entry[i])
}

/// A list as it is meant to be written, `[mut] path [, [mut] path]*`: every
/// run of tokens between separators is a well-formed entry.
pub open spec fn well_formed(tokens: Seq<Seq<char>>) -> bool {
    forall|k: int| 0 <= k < entries(tokens).len() ==> well_formed_entry(#[trigger] entries(tokens)[k])
}

/// Selects the separators.
pub open spec fn separating() -> spec_fn(Seq<char>) -> bool {
    |token: Seq<char>| is_separator(token)
}

/// The marker and the separator are different tokens.
pub proof fn lemma_marker_is_no_separator()
    ensures
        "mut"@ != ","@,
{
    reveal_strlit("mut");
    reveal_strlit(",");
    assert(","@.len() == 1);
}

/// A list always has a last run of tokens.
pub proof fn lemma_entries_nonempty(tokens: Seq<Seq<char>>)
    ensures
        entries(tokens).len() >= 1,
    decreases tokens.len(),
{
    if tokens.len() > 0 {
        lemma_entries_nonempty(tokens.drop_last());
    }
}

/// A list has one entry more than it has separators.
pub proof fn lemma_entries_len(tokens: Seq<Seq<char>>)
    ensures
        entries(tokens).len() == tokens.filter(separating()).len() + 1,
    decreases tokens.len(),
{
    reveal(Seq::filter);
    if tokens.len() > 0 {
        lemma_entries_len(tokens.drop_last());
    }
}

/// One more token in an entry: a marker makes it mutable, any other token
/// goes to the path.
pub proof fn lemma_entry_item_push(entry: Seq<Seq<char>>, token: Seq<char>)
    ensures
        entry_item(entry.push(token)) == if is_mut_marker(token) {
            entry_item(entry).marked_mutable()
        } else {
            entry_item(entry).with_token(token)
        },
{
    let longer = entry.push(token);
    entry.lemma_filter_push(token, in_path());
    if is_mut_marker(token) {
        assert(longer[entry.len() as int] == "mut"@);
    } else {
        path_tokens(entry).lemma_flatten_push(token);
        if entry.contains("mut"@) {
            let i = choose|i: int| 0 <= i < entry.len() && entry[i] == "mut"@;
            assert(longer[i] == "mut"@);
        }
        if longer.contains("mut"@) {
            let i = choose|i: int| 0 <= i < longer.len() && longer[i] == "mut"@;
            assert(entry[i] == "mut"@);
        }
    }
}

/// In every entry the binding name is the end of the path.
pub proof fn lemma_entry_item_well_formed(entry: Seq<Seq<char>>)
    ensures
        entry_item(entry).well_formed(),
{
    let path = path_tokens(entry);
    if path.len() > 0 {
        assert(path =~= path.drop_last().push(path.last()));
        path.drop_last().lemma_flatten_push(path.last());
    }
}

/// In every item of a list the binding name is the end of the path.
pub proof fn lemma_parsed_items_well_formed(tokens: Seq<Seq<char>>)
    ensures
        forall|k: int| 0 <= k < parsed(tokens).len() ==> (#[trigger] parsed(tokens)[k]).well_formed(),
{
    assert forall|k: int| 0 <= k < parsed(tokens).len() implies (#[trigger] parsed(
        tokens,
    )[k]).well_formed() by {
        lemma_entry_item_well_formed(entries(tokens)[k]);
    }
}

/// A well-formed entry is bound to its last token, which is not empty, and
/// is mutable when it starts with the marker.
pub proof fn lemma_well_formed_entry_item(entry: Seq<Seq<char>>)
    requires
        well_formed_entry(entry),
    ensures
        entry_item(entry).last_identifier == entry.last(),
        entry_item(entry).last_identifier.len() > 0,
        entry_item(entry).mutable == is_mut_marker(entry[0]),
        entry_item(entry) != LockItemView::empty(),
{
    assert(entry =~= entry.drop_last().push(entry.last()));
    entry.drop_last().lemma_filter_push(entry.last(), in_path());
    if entry.contains("mut"@) {
        let i = choose|i: int| 0 <= i < entry.len() && entry[i] == "mut"@;
        assert(is_mut_marker(entry[i]));
    }
}

/// A well-formed list has one item for each of its entries, and none of them
/// has an empty name.
pub proof fn lemma_parsed_well_formed(tokens: Seq<Seq<char>>)
    requires
        well_formed(tokens),
    ensures
        parsed(tokens).len() == entries(tokens).len(),
        forall|k: int|
            0 <= k < entries(tokens).len() ==> #[trigger] parsed(tokens)[k] == entry_item(
                entries(tokens)[k],
            ),
        forall|k: int|
            0 <= k < parsed(tokens).len() ==> (#[trigger] parsed(tokens)[k]).last_identifier.len()
                > 0,
{
    let all = entries(tokens);
    lemma_entries_nonempty(tokens);
    assert forall|k: int| 0 <= k < all.len() implies entry_item(#[trigger] all[k])
        != LockItemView::empty() && entry_item(all[k]).last_identifier.len() > 0 by {
        lemma_well_formed_entry_item(all[k]);
    }
}

/// Every entry that a separator has ended is well-formed.
spec fn ended_entries_well_formed(all: Seq<Seq<Seq<char>>>) -> bool {
    forall|k: int| 0 <= k < all.len() - 1 ==> well_formed_entry(#[trigger] all[k])
}

/// No marker stands behind the first token of the entry.
spec fn marker_only_in_front(entry: Seq<Seq<char>>) -> bool {
    forall|j: int| 1 <= j < entry.len() ==> !is_mut_marker(#[trigger] entry[j])
}

proof fn lemma_entry_ended(all: Seq<Seq<Seq<char>>>)
    requires
        all.len() >= 1,
    ensures
        ended_entries_well_formed(all.push(Seq::empty())) <==> ended_entries_well_formed(all)
            && well_formed_entry(all.last()),
{
    let longer = all.push(Seq::empty());
    if ended_entries_well_formed(all) && well_formed_entry(all.last()) {
        assert forall|k: int| 0 <= k < longer.len() - 1 implies well_formed_entry(
            #[trigger] longer[k],
        ) by {
            assert(longer[k] == all[k]);
        }
    }
    if ended_entries_well_formed(longer) {
        assert forall|k: int| 0 <= k < all.len() implies well_formed_entry(#[trigger] all[k]) by {
            assert(longer[k] == all[k]);
        }
    }
}

proof fn lemma_entry_goes_on(all: Seq<Seq<Seq<char>>>, token: Seq<char>)
    requires
        all.len() >= 1,
    ensures
        ({
            let longer = all.drop_last().push(all.last().push(token));
            &&& ended_entries_well_formed(longer) <==> ended_entries_well_formed(all)
            &&& marker_only_in_front(longer.last()) <==> marker_only_in_front(all.last()) && !(
            is_mut_marker(token) && all.last().len() > 0)
        }),
{
    let entry = all.last();
    let longer_entry = entry.push(token);
    let longer = all.drop_last().push(longer_entry);
    if ended_entries_well_formed(all) {
        assert forall|k: int| 0 <= k < longer.len() - 1 implies well_formed_entry(
            #[trigger] longer[k],
        ) by {
            assert(longer[k] == all[k]);
        }
    }
    if ended_entries_well_formed(longer) {
        assert forall|k: int| 0 <= k < all.len() - 1 implies well_formed_entry(#[trigger] all[k]) by {
            assert(longer[k] == all[k]);
        }
    }
    if marker_only_in_front(longer_entry) {
        assert forall|j: int| 1 <= j < entry.len() implies !is_mut_marker(#[trigger] entry[j]) by {
            assert(longer_entry[j] == entry[j]);
        }
        if entry.len() > 0 {
            assert(longer_entry[entry.len() as int] == token);
        }
    }
    if marker_only_in_front(entry) && !(is_mut_marker(token) && entry.len() > 0) {
        assert forall|j: int| 1 <= j < longer_entry.len() implies !is_mut_marker(
            #[trigger] longer_entry[j],
        ) by {
            if j < entry.len() {
                assert(longer_entry[j] == entry[j]);
            }
        }
    }
}

/// Whether the list is written as it is meant to be.
pub fn is_well_formed(tokens: &[String]) -> (ok: bool)
    ensures
        ok == well_formed(tokens.deep_view()),
{
    let ghost texts = tokens.deep_view();
    // Whether nothing read so far is against the rules.
    let mut ok = true;
    // Whether the entry that is being read has a token.
    let mut started = false;
    // Whether its last token can be a name.
    let mut named = false;
    let mut i: usize = 0;
    while i < tokens.len()
        invariant
            i <= tokens.len(),
            texts == tokens.deep_view(),
            entries(texts.take(i as int)).len() >= 1,
            started == (entries(texts.take(i as int)).last().len() > 0),
            started ==> named == {
                let token = entries(texts.take(i as int)).last().last();
                !is_mut_marker(token) && token.len() > 0
            },
            ok == (ended_entries_well_formed(entries(texts.take(i as int)))
                && marker_only_in_front(entries(texts.take(i as int)).last())),
        decreases tokens.len() - i,
    {
        let token = tokens[i].as_str();
        proof {
            let before = entries(texts.take(i as int));
            assert(texts.take(i + 1).drop_last() =~= texts.take(i as int));
            lemma_entry_ended(before);
            lemma_entry_goes_on(before, token@);
        }
        if same_text(token, ",") {
            ok = ok && started && named;
            started = false;
            named = false;
        } else {
            let marker = same_text(token, "mut");
            ok = ok && !(marker && started);
            started = true;
            named = !marker && !token.is_empty();
        }
        i += 1;
    }
    proof {
        assert(texts.take(i as int) =~= texts);
        let all = entries(texts);
        if ok && started && named {
            assert forall|k: int| 0 <= k < all.len() implies well_formed_entry(#[trigger] all[k]) by {
                if k == all.len() - 1 {
                    assert(all[k] == all.last());
                }
            }
        } else if well_formed(texts) {
            assert(well_formed_entry(all[all.len() - 1]));
        }
    }
    ok && started && named
}

/// Reads the items of a token list, in the order in which they are written.
pub fn parse(tokens: &[String]) -> (out: Vec<LockItem>)
    ensures
        out.deep_view() == parsed(tokens.deep_view()),
        forall|k: int| 0 <= k < out.len() ==> (#[trigger] out[k])@.well_formed(),
{
    let ghost texts = tokens.deep_view();
    let ghost item_of = |entry: Seq<Seq<char>>| entry_item(entry);
    let mut out: Vec<LockItem> = Vec::new();
    let mut curr = LockItem::default();
    let mut i: usize = 0;
    while i < tokens.len()
        invariant
            i <= tokens.len(),
            texts == tokens.deep_view(),
            item_of == |entry: Seq<Seq<char>>| entry_item(entry),
            entries(texts.take(i as int)).len() >= 1,
            out.deep_view() == entries(texts.take(i as int)).drop_last().map_values(item_of),
            curr@ == entry_item(entries(texts.take(i as int)).last()),
            forall|k: int| 0 <= k < out.len() ==> (#[trigger] out[k])@.well_formed(),
        decreases tokens.len() - i,
    {
        let token = tokens[i].as_str();
        let ghost before = entries(texts.take(i as int));
        proof {
            lemma_marker_is_no_separator();
            assert(texts.take(i + 1).drop_last() =~= texts.take(i as int));
            lemma_entry_item_push(before.last(), token@);
            lemma_entry_item_well_formed(before.last());
        }
        if same_text(token, "mut") {
            curr.mutable = true;
        } else if same_text(token, ",") {
            out.push(curr);
            curr = LockItem::default();
            proof {
                assert(before.push(Seq::empty()).drop_last() =~= before);
                assert(before.map_values(item_of) =~= before.drop_last().map_values(item_of).push(
                    item_of(before.last()),
                ));
            }
        } else {
            curr.add(token);
        }
        i += 1;
    }
    proof {
        let all = entries(texts);
        assert(texts.take(i as int) =~= texts);
        assert(all.map_values(item_of) =~= all.drop_last().map_values(item_of).push(
            item_of(all.last()),
        ));
        lemma_entry_item_well_formed(all.last());
    }
    if curr != LockItem::default() {
        out.push(curr);
    }
    out
}

} // verus!
