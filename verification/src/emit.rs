//! Writing the statement that takes the locks: one `let` that binds a tuple
//! of names to a tuple of `lock().unwrap()` calls.

use vstd::prelude::*;
use vstd::string::*;

use crate::item::{LockItem, LockItemView};

verus! {

/// The pattern that binds one item: its name, after `mut` if it is mutable.
pub open spec fn binding(item: LockItemView) -> Seq<char> {
    if item.mutable {
        "mut "@ + item.last_identifier
    } else {
        item.last_identifier
    }
}

/// The expression that takes one item's lock.
pub open spec fn acquisition(item: LockItemView) -> Seq<char> {
    item.full_identifier + ".lock().unwrap()"@
}

/// The binding patterns of the items, one for each, in their order.
pub open spec fn bindings(items: Seq<LockItemView>) -> Seq<Seq<char>> {
    items.map_values(|item: LockItemView| binding(item))
}

/// The lock expressions of the items, one for each, in their order.
pub open spec fn acquisitions(items: Seq<LockItemView>) -> Seq<Seq<char>> {
    items.map_values(|item: LockItemView| acquisition(item))
}

/// The parts written one after the other, with `, ` between two of them.
pub open spec fn joined(parts: Seq<Seq<char>>) -> Seq<char>
    decreases parts.len(),
{
    if parts.len() == 0 {
        Seq::empty()
    } else if parts.len() == 1 {
        parts[0]
    } else {
        joined(parts.drop_last()) + ", "@ + parts.last()
    }
}

/// The statement that binds the items, in their order.
pub open spec fn statement(items: Seq<LockItemView>) -> Seq<char> {
    "let ("@ + joined(bindings(items)) + ") = ("@ + joined(acquisitions(items)) + ");"@
}

/// One more part at the end of a joined text.
pub proof fn lemma_joined_push(parts: Seq<Seq<char>>, part: Seq<char>)
    ensures
        joined(parts.push(part)) == if parts.len() == 0 {
            part
        } else {
            joined(parts) + ", "@ + part
        },
{
    assert(parts.push(part).drop_last() =~= parts);
}

/// Writes the statement that binds the items, in their order.
pub fn emit(items: &[LockItem]) -> (out: String)
    ensures
        out@ == statement(items.deep_view()),
{
    let ghost given = items.deep_view();
    let mut declarations = String::new();
    let mut locks = String::new();
    let mut i: usize = 0;
    while i < items.len()
        invariant
            i <= items.len(),
            given == items.deep_view(),
            declarations@ == joined(bindings(given.take(i as int))),
            locks@ == joined(acquisitions(given.take(i as int))),
        decreases items.len() - i,
    {
        let item = &items[i];
        proof {
            let before = given.take(i as int);
            assert(given.take(i + 1) =~= before.push(item@));
            assert(bindings(before.push(item@)) =~= bindings(before).push(binding(item@)));
            assert(acquisitions(before.push(item@)) =~= acquisitions(before).push(
                acquisition(item@),
            ));
            lemma_joined_push(bindings(before), binding(item@));
            lemma_joined_push(acquisitions(before), acquisition(item@));
        }
        if i > 0 {
            declarations.append(", ");
            locks.append(", ");
        }
        if item.mutable {
            declarations.append("mut ");
        }
        declarations.append(item.last_identifier.as_str());
        locks.append(item.full_identifier.as_str());
        locks.append(".lock().unwrap()");
        i += 1;
    }
    proof {
        assert(given.take(i as int) =~= given);
    }
    let mut out = "let (".to_owned();
    out.append(declarations.as_str());
    out.append(") = (");
    out.append(locks.as_str());
    out.append(");");
    out
}

} // verus!
