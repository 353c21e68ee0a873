//! One lock of the list: the path that reaches it, the name it is bound to,
//! and whether the binding is mutable.

use vstd::prelude::*;
use vstd::std_specs::cmp::PartialEqSpecImpl;
use vstd::string::*;

verus! {

/// One entry of a lock list.
#[derive(Debug)]
pub struct LockItem {
    /// The last token of the path: the name the guard is bound to.
    pub last_identifier: String,
    /// The whole path, its tokens written one after the other.
    pub full_identifier: String,
    /// Whether the binding is declared `mut`.
    pub mutable: bool,
}

/// What a [`LockItem`] holds, as plain text.
pub struct LockItemView {
    pub last_identifier: Seq<char>,
    pub full_identifier: Seq<char>,
    pub mutable: bool,
}

impl LockItemView {
    /// The entry of which nothing has been read yet.
    pub open spec fn empty() -> LockItemView {
        LockItemView {
            last_identifier: Seq::empty(),
            full_identifier: Seq::empty(),
            mutable: false,
        }
    }

    /// The entry after one more token of its path.
    pub open spec fn with_token(self, token: Seq<char>) -> LockItemView {
        LockItemView {
            last_identifier: token,
            full_identifier: self.full_identifier + token,
            mutable: self.mutable,
        }
    }

    /// The entry once it is marked mutable.
    pub open spec fn marked_mutable(self) -> LockItemView {
        LockItemView {
            last_identifier: self.last_identifier,
            full_identifier: self.full_identifier,
            mutable: true,
        }
    }

    /// The binding name is the end of the path.
    pub open spec fn well_formed(self) -> bool {
        self.last_identifier.is_suffix_of(self.full_identifier)
    }
}

impl View for LockItem {
    type V = LockItemView;

    open spec fn view(&self) -> LockItemView {
        LockItemView {
            last_identifier: self.last_identifier@,
            full_identifier: self.full_identifier@,
            mutable: self.mutable,
        }
    }
}

impl DeepView for LockItem {
    type V = LockItemView;

    open spec fn deep_view(&self) -> LockItemView {
        self@
    }
}

impl Default for LockItem {
    fn default() -> (item: LockItem)
        ensures
            item@ == LockItemView::empty(),
            item@.well_formed(),
    {
        LockItem {
            last_identifier: String::new(),
            full_identifier: String::new(),
            mutable: false,
        }
    }
}

impl Clone for LockItem {
    fn clone(&self) -> (item: LockItem)
        ensures
            item@ == self@,
    {
        LockItem {
            last_identifier: self.last_identifier.clone(),
            full_identifier: self.full_identifier.clone(),
            mutable: self.mutable,
        }
    }
}

impl PartialEq for LockItem {
    fn eq(&self, other: &LockItem) -> (r: bool) {
        self.last_identifier == other.last_identifier
            && self.full_identifier == other.full_identifier
            && self.mutable == other.mutable
    }
}

impl PartialEqSpecImpl for LockItem {
    open spec fn obeys_eq_spec() -> bool {
        true
    }

    open spec fn eq_spec(&self, other: &LockItem) -> bool {
        self@ == other@
    }
}

impl LockItem {
    /// Takes one more token of the path: it is appended to the path, and it
    /// becomes the binding name.
    pub fn add(&mut self, id: &str)
        ensures
            final(self)@ == old(self)@.with_token(id@),
            final(self)@.well_formed(),
    {
        self.full_identifier.append(id);
        self.last_identifier = id.to_owned();
    }
}

} // verus!
