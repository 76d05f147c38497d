//! The edit data carried by each revision.
//!
//! A [`Transaction`] is an ordered list of operations over a text buffer,
//! together with the buffer length it consumes and the length it produces,
//! and an optional resulting [`Selection`]. Transactions are immutable once
//! created; the tree shares them by value and never edits them in place.

use vstd::prelude::*;

verus! {

/// One primitive step of an edit: keep `n` units, remove `n` units, or
/// insert the given text.
pub enum Operation {
    Retain(usize),
    Delete(usize),
    Insert(String),
}

/// Mathematical shape of an [`Operation`]: inserted text as its characters.
#[verifier::ext_equal]
pub enum OperationView {
    Retain(usize),
    Delete(usize),
    Insert(Seq<char>),
}

impl View for Operation {
    type V = OperationView;

    open spec fn view(&self) -> OperationView {
        match self {
            Operation::Retain(n) => OperationView::Retain(*n),
            Operation::Delete(n) => OperationView::Delete(*n),
            Operation::Insert(s) => OperationView::Insert(s@),
        }
    }
}

/// One cursor range: an anchor, a head, and an optional cached visual
/// position (a row and column pair).
#[derive(Clone, Copy)]
pub struct Range {
    pub anchor: usize,
    pub head: usize,
    pub old_visual_position: Option<(u32, u32)>,
}

/// A set of cursor ranges with a distinguished primary one.
pub struct Selection {
    pub ranges: Vec<Range>,
    pub primary_index: usize,
}

/// Mathematical shape of a [`Selection`].
#[verifier::ext_equal]
pub struct SelectionView {
    pub ranges: Seq<Range>,
    pub primary_index: usize,
}

impl View for Selection {
    type V = SelectionView;

    open spec fn view(&self) -> SelectionView {
        SelectionView { ranges: self.ranges@, primary_index: self.primary_index }
    }
}

/// The operations of an edit plus its length bookkeeping: applying the
/// operations consumes `len` units of input and produces `len_after`.
pub struct ChangeSet {
    pub changes: Vec<Operation>,
    pub len: usize,
    pub len_after: usize,
}

/// Mathematical shape of a [`ChangeSet`].
#[verifier::ext_equal]
pub struct ChangeSetView {
    pub changes: Seq<OperationView>,
    pub len: usize,
    pub len_after: usize,
}

impl View for ChangeSet {
    type V = ChangeSetView;

    open spec fn view(&self) -> ChangeSetView {
        ChangeSetView {
            changes: Seq::new(self.changes@.len(), |i: int| self.changes@[i]@),
            len: self.len,
            len_after: self.len_after,
        }
    }
}

/// A forward or inverse edit: a [`ChangeSet`] plus the selection that
/// results from applying it, if one was recorded.
pub struct Transaction {
    pub changes: ChangeSet,
    pub selection: Option<Selection>,
}

/// Mathematical shape of a [`Transaction`].
#[verifier::ext_equal]
pub struct TransactionView {
    pub changes: ChangeSetView,
    pub selection: Option<SelectionView>,
}

impl View for Transaction {
    type V = TransactionView;

    open spec fn view(&self) -> TransactionView {
        TransactionView {
            changes: self.changes@,
            selection: match self.selection {
                Some(s) => Some(s@),
                None => None,
            },
        }
    }
}

impl Operation {
    /// Content equality: the same step with the same count or text.
    pub fn equals(&self, other: &Operation) -> (r: bool)
        ensures
            r == (self@ == other@),
    {
        match (self, other) {
            (Operation::Retain(a), Operation::Retain(b)) => a == b,
            (Operation::Delete(a), Operation::Delete(b)) => a == b,
            (Operation::Insert(a), Operation::Insert(b)) => String::eq(a, b),
            _ => false,
        }
    }

    /// A copy with the same content.
    pub fn duplicate(&self) -> (r: Operation)
        ensures
            r@ == self@,
    {
        match self {
            Operation::Retain(n) => Operation::Retain(*n),
            Operation::Delete(n) => Operation::Delete(*n),
            Operation::Insert(s) => Operation::Insert(s.clone()),
        }
    }
}

/// Equality of two optional visual positions.
fn eq_visual(a: &Option<(u32, u32)>, b: &Option<(u32, u32)>) -> (r: bool)
    ensures
        r == (a == b),
{
    match (a, b) {
        (None, None) => true,
        (Some(x), Some(y)) => x.0 == y.0 && x.1 == y.1,
        _ => false,
    }
}

impl Range {
    /// Content equality of two ranges.
    pub fn equals(&self, other: &Range) -> (r: bool)
        ensures
            r == (self == other),
    {
        self.anchor == other.anchor && self.head == other.head && eq_visual(
            &self.old_visual_position,
            &other.old_visual_position,
        )
    }
}

impl Selection {
    /// Content equality of two selections.
    pub fn equals(&self, other: &Selection) -> (r: bool)
        ensures
            r == (self@ == other@),
    {
        if self.primary_index != other.primary_index {
            return false;
        }
        if self.ranges.len() != other.ranges.len() {
            assert(self@.ranges.len() != other@.ranges.len());
            return false;
        }
        let n = self.ranges.len();
        let mut i: usize = 0;
        while i < n
            invariant
                0 <= i <= n,
                n == self.ranges@.len() == other.ranges@.len(),
                forall|j: int| 0 <= j < i ==> self.ranges@[j] == other.ranges@[j],
            decreases n - i,
        {
            if !self.ranges[i].equals(&other.ranges[i]) {
                assert(self@.ranges[i as int] != other@.ranges[i as int]);
                return false;
            }
            i += 1;
        }
        assert(self@.ranges =~= other@.ranges);
        true
    }

    /// A copy with the same content.
    pub fn duplicate(&self) -> (r: Selection)
        ensures
            r@ == self@,
    {
        let r = Selection {
            ranges: vstd::slice::slice_to_vec(self.ranges.as_slice()),
            primary_index: self.primary_index,
        };
        assert(r@ =~= self@);
        r
    }
}

impl ChangeSet {
    /// Content equality of two change sets.
    pub fn equals(&self, other: &ChangeSet) -> (r: bool)
        ensures
            r == (self@ == other@),
    {
        if self.len != other.len || self.len_after != other.len_after {
            return false;
        }
        if self.changes.len() != other.changes.len() {
            assert(self@.changes.len() != other@.changes.len());
            return false;
        }
        let n = self.changes.len();
        let mut i: usize = 0;
        while i < n
            invariant
                0 <= i <= n,
                n == self.changes@.len() == other.changes@.len(),
                forall|j: int| 0 <= j < i ==> self.changes@[j]@ == other.changes@[j]@,
            decreases n - i,
        {
            if !self.changes[i].equals(&other.changes[i]) {
                assert(self@.changes[i as int] != other@.changes[i as int]);
                return false;
            }
            i += 1;
        }
        assert(self@.changes =~= other@.changes);
        true
    }

    /// A copy with the same content.
    pub fn duplicate(&self) -> (r: ChangeSet)
        ensures
            r@ == self@,
    {
        let n = self.changes.len();
        let mut ops: Vec<Operation> = Vec::new();
        let mut i: usize = 0;
        while i < n
            invariant
                0 <= i <= n,
                n == self.changes@.len(),
                ops@.len() == i,
                forall|j: int| 0 <= j < i ==> ops@[j]@ == self.changes@[j]@,
            decreases n - i,
        {
            let op = self.changes[i].duplicate();
            ops.push(op);
            i += 1;
        }
        let r = ChangeSet { changes: ops, len: self.len, len_after: self.len_after };
        assert(r@.changes =~= self@.changes);
        assert(r@ =~= self@);
        r
    }
}

impl Transaction {
    /// Content equality of two transactions.
    pub fn equals(&self, other: &Transaction) -> (r: bool)
        ensures
            r == (self@ == other@),
    {
        if !self.changes.equals(&other.changes) {
            return false;
        }
        let sel_eq = match (&self.selection, &other.selection) {
            (None, None) => true,
            (Some(a), Some(b)) => a.equals(b),
            _ => false,
        };
        if sel_eq {
            assert(self@ =~= other@);
        }
        sel_eq
    }

    /// A copy with the same content.
    pub fn duplicate(&self) -> (r: Transaction)
        ensures
            r@ == self@,
    {
        let selection = match &self.selection {
            Some(s) => Some(s.duplicate()),
            None => None,
        };
        let r = Transaction { changes: self.changes.duplicate(), selection };
        assert(r@ =~= self@);
        r
    }

    /// The transaction that does nothing: no operations over an empty
    /// buffer, no selection.
    pub fn empty() -> (r: Transaction)
        ensures
            r@ == spec_empty_transaction(),
    {
        let r = Transaction {
            changes: ChangeSet { changes: Vec::new(), len: 0, len_after: 0 },
            selection: None,
        };
        assert(r@ =~= spec_empty_transaction());
        r
    }
}

/// The view of the transaction that does nothing.
pub open spec fn spec_empty_transaction() -> TransactionView {
    TransactionView {
        changes: ChangeSetView { changes: Seq::empty(), len: 0, len_after: 0 },
        selection: None,
    }
}

} // verus!
