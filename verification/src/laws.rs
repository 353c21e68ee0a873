//! What holds of every expansion.

use vstd::prelude::*;
use vstd::utf8::encode_utf8;

use crate::emit::{acquisition, acquisitions, binding, bindings, joined, statement};
use crate::expansion;
use crate::order::{lemma_name_le_reflexive, name_le};
use crate::parse::{
    entries, lemma_entries_len, lemma_parsed_items_well_formed, lemma_parsed_well_formed, parsed,
    separating, well_formed,
};
use crate::sort::{
    distinct_names, is_stable_sort_of, lemma_distinct_names_kept, lemma_sort_by_name,
    lemma_sort_by_name_is, lemma_sort_idempotent, lemma_sort_ignores_order, lemma_sort_keeps_items,
    sort_by_name, sorted_by_name,
};

verus! {

/// The statement for a well-formed list of N entries binds N names to N lock
/// expressions. The name and the expression at one position come from the
/// same entry, no name is empty, and where no two entries are bound to the
/// same name, no two of the names bound are the same.
pub proof fn lemma_one_binding_per_entry(tokens: Seq<Seq<char>>)
    requires
        well_formed(tokens),
    ensures
        ({
            let items = sort_by_name(parsed(tokens));
            &&& expansion(tokens) == "let ("@ + joined(bindings(items)) + ") = ("@
                + joined(acquisitions(items)) + ");"@
            &&& items.len() == entries(tokens).len()
            &&& items.len() == tokens.filter(separating()).len() + 1
            &&& bindings(items).len() == entries(tokens).len()
            &&& acquisitions(items).len() == entries(tokens).len()
            &&& forall|i: int|
                0 <= i < items.len() ==> {
                    &&& #[trigger] bindings(items)[i] == binding(items[i])
                    &&& acquisitions(items)[i] == acquisition(items[i])
                    &&& items[i].last_identifier.len() > 0
                    &&& parsed(tokens).contains(items[i])
                }
            &&& distinct_names(parsed(tokens)) ==> distinct_names(items)
        }),
{
    let given = parsed(tokens);
    let items = sort_by_name(given);
    lemma_parsed_well_formed(tokens);
    lemma_entries_len(tokens);
    lemma_sort_by_name(given);
    lemma_sort_keeps_items(given);
    assert forall|i: int| 0 <= i < items.len() implies given.contains(#[trigger] items[i])
        && items[i].last_identifier.len() > 0 by {
        assert(items.contains(items[i]));
        let k = choose|k: int| 0 <= k < given.len() && given[k] == items[i];
        assert(given[k].last_identifier.len() > 0);
    }
    if distinct_names(given) {
        lemma_distinct_names_kept(given, items);
    }
}

/// The names are bound in order: none stands before one that comes earlier.
pub proof fn lemma_bindings_in_order(tokens: Seq<Seq<char>>, i: int, j: int)
    requires
        0 <= i <= j < sort_by_name(parsed(tokens)).len(),
    ensures
        name_le(
            sort_by_name(parsed(tokens))[i].last_identifier,
            sort_by_name(parsed(tokens))[j].last_identifier,
        ),
{
    lemma_sort_by_name(parsed(tokens));
    if i == j {
        lemma_name_le_reflexive(sort_by_name(parsed(tokens))[i].last_identifier);
    }
}

/// A list whose entries are written in the order of their names stands for
/// the statement that binds them as they are written.
pub proof fn lemma_sorted_list_is_kept(tokens: Seq<Seq<char>>)
    requires
        sorted_by_name(parsed(tokens)),
    ensures
        expansion(tokens) == statement(parsed(tokens)),
{
    lemma_sort_idempotent(parsed(tokens));
}

/// Two lists that hold the same entries, in whatever order, stand for the
/// same statement, as long as no two entries are bound to the same name.
pub proof fn lemma_order_of_entries_is_immaterial(a: Seq<Seq<char>>, b: Seq<Seq<char>>)
    requires
        distinct_names(parsed(a)),
        parsed(a).to_multiset() == parsed(b).to_multiset(),
    ensures
        expansion(a) == expansion(b),
{
    lemma_sort_ignores_order(parsed(a), parsed(b));
}

/// Sorting moves the entries and alters none: every entry of the list is
/// bound somewhere in the statement, by its own name and to its own path,
/// with `mut` if and only if the entry is mutable.
pub proof fn lemma_entry_is_kept(tokens: Seq<Seq<char>>, k: int)
    requires
        0 <= k < parsed(tokens).len(),
    ensures
        ({
            let entry = parsed(tokens)[k];
            let items = sort_by_name(parsed(tokens));
            exists|i: int|
                {
                    &&& 0 <= i < items.len()
                    &&& items[i] == entry
                    &&& #[trigger] bindings(items)[i] == if entry.mutable {
                        "mut "@ + entry.last_identifier
                    } else {
                        entry.last_identifier
                    }
                    &&& acquisitions(items)[i] == entry.full_identifier + ".lock().unwrap()"@
                }
        }),
{
    let given = parsed(tokens);
    let items = sort_by_name(given);
    lemma_sort_keeps_items(given);
    assert(given.contains(given[k]));
    let i = choose|i: int| 0 <= i < items.len() && items[i] == given[k];
    assert(bindings(items)[i] == binding(given[k]));
    assert(acquisitions(items)[i] == acquisition(given[k]));
}

/// In every item that is bound, the name is the end of the path.
pub proof fn lemma_names_end_paths(tokens: Seq<Seq<char>>)
    ensures
        forall|i: int|
            0 <= i < sort_by_name(parsed(tokens)).len() ==> (#[trigger] sort_by_name(
                parsed(tokens),
            )[i]).well_formed(),
{
    let given = parsed(tokens);
    let items = sort_by_name(given);
    lemma_sort_keeps_items(given);
    lemma_parsed_items_well_formed(tokens);
    assert forall|i: int| 0 <= i < items.len() implies (#[trigger] items[i]).well_formed() by {
        assert(items.contains(items[i]));
        let k = choose|k: int| 0 <= k < given.len() && given[k] == items[i];
        assert(given[k].well_formed());
    }
}

/// A list of one entry stands for a statement with one binding, still
/// written as a tuple.
pub proof fn lemma_single_entry(tokens: Seq<Seq<char>>)
    requires
        parsed(tokens).len() == 1,
    ensures
        expansion(tokens) == "let ("@ + binding(parsed(tokens)[0]) + ") = ("@ + acquisition(
            parsed(tokens)[0],
        ) + ");"@,
{
    let given = parsed(tokens);
    assert(is_stable_sort_of(given, given));
    lemma_sort_by_name_is(given, given);
}

/// The statement is a function of the token texts alone: the same tokens give
/// the same text, byte for byte.
pub proof fn lemma_same_tokens_same_statement(
    a: Seq<Seq<char>>,
    b: Seq<Seq<char>>,
    out_a: Seq<char>,
    out_b: Seq<char>,
)
    requires
        a == b,
        out_a == expansion(a),
        out_b == expansion(b),
    ensures
        out_a == out_b,
        encode_utf8(out_a) == encode_utf8(out_b),
{
}

} // verus!
