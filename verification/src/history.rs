//! The in-memory revision tree for one document.
//!
//! A [`History`] is a flat, append-only sequence of [`Revision`]s. Index 0
//! is always a canonical empty root; every later revision points back at an
//! earlier one through its `parent` index, so the sequence forms a tree with
//! no forward or cyclic references. Each revision also caches the index of
//! its most recently appended child, which picks the default redo target.

pub mod error;
pub mod format;

use vstd::prelude::*;

verus! {

use crate::hash::Digest;
use crate::history::error::StateError;
use crate::transaction::{Selection, Transaction, TransactionView, spec_empty_transaction};

/// A single node of the undo tree: one forward edit plus its inverse.
pub struct Revision {
    /// Index of the revision this one was created from; the root points at
    /// itself.
    pub parent: usize,
    /// Index of the most recently created child, if any.
    pub last_child: Option<usize>,
    /// The forward edit.
    pub transaction: Transaction,
    /// The transaction that undoes `transaction`.
    pub inversion: Transaction,
    /// When the revision was recorded, in whole units since some epoch.
    pub timestamp: u64,
}

/// Mathematical shape of a [`Revision`].
#[verifier::ext_equal]
pub struct RevisionView {
    pub parent: usize,
    pub last_child: Option<usize>,
    pub transaction: TransactionView,
    pub inversion: TransactionView,
    pub timestamp: u64,
}

impl View for Revision {
    type V = RevisionView;

    open spec fn view(&self) -> RevisionView {
        RevisionView {
            parent: self.parent,
            last_child: self.last_child,
            transaction: self.transaction@,
            inversion: self.inversion@,
            timestamp: self.timestamp,
        }
    }
}

/// The views of a sequence of revisions.
pub open spec fn rev_views(rs: Seq<Revision>) -> Seq<RevisionView> {
    Seq::new(rs.len(), |i: int| rs[i]@)
}

/// The revision every history starts from: parent 0, no child yet, empty
/// transactions, timestamp 0.
pub open spec fn spec_root_revision() -> RevisionView {
    RevisionView {
        parent: 0,
        last_child: None,
        transaction: spec_empty_transaction(),
        inversion: spec_empty_transaction(),
        timestamp: 0,
    }
}

/// What merging compares and what the tree structure is made of: parent
/// link, forward transaction and inverse transaction, but not `last_child`
/// or the timestamp.
pub open spec fn rev_sig_eq(a: RevisionView, b: RevisionView) -> bool {
    a.parent == b.parent && a.transaction == b.transaction && a.inversion == b.inversion
}

/// A revision that can stand at index 0: the canonical root up to its
/// cached `last_child`.
pub open spec fn is_root_shape(r: RevisionView) -> bool {
    r.parent == 0 && r.transaction == spec_empty_transaction() && r.inversion
        == spec_empty_transaction() && r.timestamp == 0
}

/// Back-references only: every revision after the root points at a strictly
/// earlier one.
pub open spec fn tree_shaped(rs: Seq<RevisionView>) -> bool {
    forall|i: int| 1 <= i < rs.len() ==> (rs[i].parent as int) < i
}

/// The in-memory revision tree plus the navigation pointer.
pub struct History {
    /// Append-only; index 0 is always the canonical empty root.
    pub revisions: Vec<Revision>,
    /// Index of the revision representing the present document state.
    pub current: usize,
    /// The chain checkpoint this history was loaded from, if any: an index
    /// into the snapshot chain and the content digest recorded there.
    pub undofile_parent: Option<(usize, Digest)>,
}

/// Mathematical shape of a [`History`].
#[verifier::ext_equal]
pub struct HistoryView {
    pub revisions: Seq<RevisionView>,
    pub current: usize,
    pub undofile_parent: Option<(usize, Seq<u8>)>,
}

impl View for History {
    type V = HistoryView;

    open spec fn view(&self) -> HistoryView {
        HistoryView {
            revisions: rev_views(self.revisions@),
            current: self.current,
            undofile_parent: match self.undofile_parent {
                Some(p) => Some((p.0, p.1@)),
                None => None,
            },
        }
    }
}

/// Structural invariant of a history: at least the root, a root-shaped
/// first revision, back-references only, and an in-range pointer.
pub open spec fn history_wf(h: HistoryView) -> bool {
    &&& h.revisions.len() >= 1
    &&& is_root_shape(h.revisions[0])
    &&& tree_shaped(h.revisions)
    &&& (h.current as int) < h.revisions.len()
}

/// Index of the most recently appended child of node `i`, scanning from the
/// end; the revision at index 0 is never anyone's child.
pub open spec fn spec_latest_child(rs: Seq<RevisionView>, i: int) -> Option<usize>
    decreases rs.len(),
{
    if rs.len() <= 1 {
        None
    } else if (rs[rs.len() - 1].parent as int) == i {
        Some((rs.len() - 1) as usize)
    } else {
        spec_latest_child(rs.drop_last(), i)
    }
}

/// Every cached `last_child` equals the most recently appended child.
pub open spec fn last_child_consistent(rs: Seq<RevisionView>) -> bool {
    forall|i: int| 0 <= i < rs.len() ==> rs[i].last_child == spec_latest_child(rs, i)
}

/// `spec_latest_child` reads only parent links, so rewriting other fields
/// leaves it unchanged.
pub proof fn lemma_latest_child_parents_only(rs1: Seq<RevisionView>, rs2: Seq<RevisionView>, i: int)
    requires
        rs1.len() == rs2.len(),
        forall|k: int| 0 <= k < rs1.len() ==> rs1[k].parent == rs2[k].parent,
    ensures
        spec_latest_child(rs1, i) == spec_latest_child(rs2, i),
    decreases rs1.len(),
{
    if rs1.len() <= 1 {
    } else {
        assert(rs1.drop_last().len() == rs2.drop_last().len());
        assert(forall|k: int|
            0 <= k < rs1.drop_last().len() ==> rs1.drop_last()[k].parent
                == rs2.drop_last()[k].parent);
        lemma_latest_child_parents_only(rs1.drop_last(), rs2.drop_last(), i);
    }
}

/// A node no revision points at has no latest child.
pub proof fn lemma_latest_child_absent(rs: Seq<RevisionView>, i: int)
    requires
        forall|k: int| 1 <= k < rs.len() ==> (rs[k].parent as int) != i,
    ensures
        spec_latest_child(rs, i) is None,
    decreases rs.len(),
{
    if rs.len() <= 1 {
    } else {
        lemma_latest_child_absent(rs.drop_last(), i);
    }
}

/// Appending a revision makes it the latest child of its parent and changes
/// nobody else's latest child.
pub proof fn lemma_latest_child_push(rs: Seq<RevisionView>, r: RevisionView, i: int)
    requires
        rs.len() >= 1,
    ensures
        spec_latest_child(rs.push(r), i) == if (r.parent as int) == i {
            Some(rs.len() as usize)
        } else {
            spec_latest_child(rs, i)
        },
{
    let s = rs.push(r);
    assert(s.len() == rs.len() + 1);
    assert(s[s.len() - 1] == r);
    assert(s.drop_last() =~= rs);
}

impl Revision {
    /// A copy with the same content.
    pub fn duplicate(&self) -> (r: Revision)
        ensures
            r@ == self@,
    {
        let r = Revision {
            parent: self.parent,
            last_child: self.last_child,
            transaction: self.transaction.duplicate(),
            inversion: self.inversion.duplicate(),
            timestamp: self.timestamp,
        };
        assert(r@ =~= self@);
        r
    }

    /// Equality of what the tree structure is made of: parent link and both
    /// transactions, ignoring `last_child` and the timestamp.
    pub fn same_sig(&self, other: &Revision) -> (r: bool)
        ensures
            r == rev_sig_eq(self@, other@),
    {
        self.parent == other.parent && self.transaction.equals(&other.transaction)
            && self.inversion.equals(&other.inversion)
    }

    /// The canonical root revision.
    pub fn root() -> (r: Revision)
        ensures
            r@ == spec_root_revision(),
    {
        let r = Revision {
            parent: 0,
            last_child: None,
            transaction: Transaction::empty(),
            inversion: Transaction::empty(),
            timestamp: 0,
        };
        assert(r@ =~= spec_root_revision());
        r
    }
}

/// The view of a freshly created history: just the root, pointer at it.
pub open spec fn spec_new_history() -> HistoryView {
    HistoryView {
        revisions: seq![spec_root_revision()],
        current: 0,
        undofile_parent: None,
    }
}

impl History {
    /// A history holding exactly the canonical root revision.
    pub fn new() -> (r: History)
        ensures
            r@ == spec_new_history(),
            history_wf(r@),
            last_child_consistent(r@.revisions),
    {
        let mut revisions: Vec<Revision> = Vec::new();
        revisions.push(Revision::root());
        let r = History { revisions, current: 0, undofile_parent: None };
        assert(r@.revisions =~= seq![spec_root_revision()]);
        assert(r@ =~= spec_new_history());
        r
    }

    /// Index of the revision representing the present state.
    pub fn current_revision(&self) -> (r: usize)
        ensures
            r == self@.current,
    {
        self.current
    }

    /// Read-only view of the full ordered revision sequence.
    pub fn get_revisions(&self) -> (r: &Vec<Revision>)
        ensures
            r@.len() == self@.revisions.len(),
            forall|i: int| 0 <= i < r@.len() ==> r@[i]@ == self@.revisions[i],
    {
        &self.revisions
    }

    /// Records the chain checkpoint this history was loaded from, for later
    /// incremental commits.
    pub fn set_undofile_parent(&mut self, index: usize, digest: Digest)
        ensures
            final(self)@ == (HistoryView {
                undofile_parent: Some((index, digest@)),
                ..old(self)@
            }),
    {
        self.undofile_parent = Some((index, digest));
        assert(self@ =~= (HistoryView { undofile_parent: Some((index, digest@)), ..old(self)@ }));
    }

    /// Appends a new revision: its parent is the current one, the parent's
    /// `last_child` is pointed at it, and the pointer advances to it. The
    /// recorded forward transaction carries `selection_after` as its
    /// resulting selection.
    pub fn record(
        &mut self,
        transaction: Transaction,
        inversion: Transaction,
        selection_after: Option<Selection>,
        timestamp: u64,
    )
        requires
            (old(self)@.current as int) < old(self)@.revisions.len(),
            old(self)@.revisions.len() < usize::MAX,
        ensures
            final(self)@.revisions == old(self)@.revisions.update(
                old(self)@.current as int,
                RevisionView {
                    last_child: Some(old(self)@.revisions.len() as usize),
                    ..old(self)@.revisions[old(self)@.current as int]
                },
            ).push(
                RevisionView {
                    parent: old(self)@.current,
                    last_child: None,
                    transaction: TransactionView {
                        changes: transaction@.changes,
                        selection: match selection_after {
                            Some(s) => Some(s@),
                            None => None,
                        },
                    },
                    inversion: inversion@,
                    timestamp,
                },
            ),
            final(self)@.current == old(self)@.revisions.len(),
            final(self)@.undofile_parent == old(self)@.undofile_parent,
            history_wf(old(self)@) ==> history_wf(final(self)@),
            history_wf(old(self)@) && last_child_consistent(old(self)@.revisions)
                ==> last_child_consistent(final(self)@.revisions),
    {
        let ghost sel_view: Option<crate::transaction::SelectionView> = match &selection_after {
            Some(s) => Some(s@),
            None => None,
        };
        let parent = self.current;
        let idx = self.revisions.len();
        let mut parent_rev = self.revisions[parent].duplicate();
        parent_rev.last_child = Some(idx);
        self.revisions[parent] = parent_rev;
        let rev = Revision {
            parent,
            last_child: None,
            transaction: Transaction { changes: transaction.changes, selection: selection_after },
            inversion,
            timestamp,
        };
        self.revisions.push(rev);
        self.current = idx;

        proof {
            let old_revs = old(self)@.revisions;
            let cur = old(self)@.current as int;
            let updated = old_revs.update(
                cur,
                RevisionView { last_child: Some(idx), ..old_revs[cur] },
            );
            let pushed_view = RevisionView {
                parent: old(self)@.current,
                last_child: None,
                transaction: TransactionView { changes: transaction@.changes, selection: sel_view },
                inversion: inversion@,
                timestamp,
            };
            assert(self@.revisions =~= updated.push(pushed_view));
            if history_wf(old(self)@) {
                let new_revs = self@.revisions;
                assert(is_root_shape(new_revs[0]));
                assert(tree_shaped(new_revs)) by {
                    assert(forall|i: int|
                        1 <= i < new_revs.len() - 1 ==> new_revs[i].parent == old_revs[i].parent);
                };
                if last_child_consistent(old_revs) {
                    assert forall|i: int| 0 <= i < new_revs.len() implies new_revs[i].last_child
                        == spec_latest_child(new_revs, i) by {
                        lemma_latest_child_parents_only(updated, old_revs, i);
                        lemma_latest_child_push(updated, pushed_view, i);
                        if i >= old_revs.len() {
                            lemma_latest_child_absent(updated, i);
                        }
                    };
                }
            }
        }
    }

    /// Moves the pointer to the parent of the current revision. At the root
    /// this is a no-op, since the root is its own parent; with an
    /// out-of-range pointer nothing moves either.
    pub fn undo(&mut self)
        ensures
            final(self).revisions == old(self).revisions,
            final(self).undofile_parent == old(self).undofile_parent,
            final(self)@.current == if (old(self)@.current as int) < old(
                self,
            )@.revisions.len() {
                old(self)@.revisions[old(self)@.current as int].parent
            } else {
                old(self)@.current
            },
    {
        if self.current < self.revisions.len() {
            self.current = self.revisions[self.current].parent;
        }
    }

    /// Moves the pointer to the most recently created child of the current
    /// revision, if there is one in range; otherwise a no-op.
    pub fn redo(&mut self)
        ensures
            final(self).revisions == old(self).revisions,
            final(self).undofile_parent == old(self).undofile_parent,
            final(self)@.current == {
                let h = old(self)@;
                if (h.current as int) < h.revisions.len() {
                    match h.revisions[h.current as int].last_child {
                        Some(c) => if (c as int) < h.revisions.len() {
                            c
                        } else {
                            h.current
                        },
                        None => h.current,
                    }
                } else {
                    h.current
                }
            },
    {
        if self.current < self.revisions.len() {
            match self.revisions[self.current].last_child {
                Some(c) => {
                    if c < self.revisions.len() {
                        self.current = c;
                    }
                },
                None => {},
            }
        }
    }
}

impl Default for History {
    /// Same as [`History::new`].
    fn default() -> (r: History)
        ensures
            r@ == spec_new_history(),
            history_wf(r@),
            last_child_consistent(r@.revisions),
    {
        History::new()
    }
}


/// Length of the longest common prefix of two revision sequences, compared
/// pairwise by parent link, forward transaction and inverse transaction.
pub open spec fn spec_common_prefix_len(a: Seq<RevisionView>, b: Seq<RevisionView>) -> int
    decreases a.len(),
{
    if a.len() == 0 || b.len() == 0 || !rev_sig_eq(a[0], b[0]) {
        0
    } else {
        1 + spec_common_prefix_len(a.skip(1), b.skip(1))
    }
}

/// A pointwise-equal prefix followed by a mismatch or an end pins the
/// common prefix length down.
pub proof fn lemma_common_prefix_len_from_pointwise(
    a: Seq<RevisionView>,
    b: Seq<RevisionView>,
    n: int,
)
    requires
        0 <= n <= a.len(),
        n <= b.len(),
        forall|j: int| 0 <= j < n ==> rev_sig_eq(a[j], b[j]),
        n == a.len() || n == b.len() || !rev_sig_eq(a[n], b[n]),
    ensures
        spec_common_prefix_len(a, b) == n,
    decreases n,
{
    if n == 0 {
    } else {
        assert(rev_sig_eq(a[0], b[0]));
        let a1 = a.skip(1);
        let b1 = b.skip(1);
        assert(forall|j: int| 0 <= j < n - 1 ==> rev_sig_eq(a1[j], b1[j]));
        lemma_common_prefix_len_from_pointwise(a1, b1, n - 1);
    }
}

/// How far a parent index inside the divergent region moves when the suffix
/// is appended after `other`'s revisions.
pub open spec fn spec_merge_offset(other_len: int, n: int) -> int {
    if other_len - n >= 1 {
        other_len - n - 1
    } else {
        0
    }
}

/// A grafted revision's parent: unchanged when it points into the shared
/// prefix, shifted by the merge offset otherwise.
pub open spec fn spec_shift_parent(p: usize, n: int, off: int) -> int {
    if (p as int) < n {
        p as int
    } else {
        p + off
    }
}

/// Appends `revs` onto `state` one by one: each revision's parent is
/// shifted, the parent's `last_child` is pointed at the new index, and the
/// revision is pushed.
pub open spec fn spec_graft(
    state: Seq<RevisionView>,
    revs: Seq<RevisionView>,
    n: int,
    off: int,
) -> Seq<RevisionView>
    decreases revs.len(),
{
    if revs.len() == 0 {
        state
    } else {
        let p = spec_shift_parent(revs[0].parent, n, off);
        let updated = state.update(
            p,
            RevisionView { last_child: Some(state.len() as usize), ..state[p] },
        );
        spec_graft(
            updated.push(RevisionView { parent: p as usize, ..revs[0] }),
            revs.skip(1),
            n,
            off,
        )
    }
}

/// Every shifted parent lands strictly before the revision it belongs to.
pub open spec fn spec_graft_ok(state_len: int, revs: Seq<RevisionView>, n: int, off: int) -> bool {
    forall|j: int|
        0 <= j < revs.len() ==> 0 <= #[trigger] spec_shift_parent(revs[j].parent, n, off)
            < state_len + j
}

/// Shape of a graft: the old revisions keep everything but `last_child`,
/// and the appended ones keep everything but their parent index.
pub proof fn lemma_graft_basic(state: Seq<RevisionView>, revs: Seq<RevisionView>, n: int, off: int)
    requires
        spec_graft_ok(state.len() as int, revs, n, off),
        state.len() + revs.len() <= usize::MAX,
    ensures
        spec_graft(state, revs, n, off).len() == state.len() + revs.len(),
        forall|k: int|
            0 <= k < state.len() ==> {
                let g = #[trigger] spec_graft(state, revs, n, off)[k];
                g.parent == state[k].parent && g.transaction == state[k].transaction
                    && g.inversion == state[k].inversion && g.timestamp == state[k].timestamp
            },
        forall|j: int|
            0 <= j < revs.len() ==> {
                let g = #[trigger] spec_graft(state, revs, n, off)[state.len() + j];
                (g.parent as int) == spec_shift_parent(revs[j].parent, n, off) && g.transaction
                    == revs[j].transaction && g.inversion == revs[j].inversion && g.timestamp
                    == revs[j].timestamp
            },
    decreases revs.len(),
{
    if revs.len() == 0 {
    } else {
        let p = spec_shift_parent(revs[0].parent, n, off);
        assert(0 <= p < state.len());
        let updated = state.update(
            p,
            RevisionView { last_child: Some(state.len() as usize), ..state[p] },
        );
        let state2 = updated.push(RevisionView { parent: p as usize, ..revs[0] });
        let revs2 = revs.skip(1);
        assert(forall|j: int|
            0 <= j < revs2.len() ==> 0 <= #[trigger] spec_shift_parent(revs2[j].parent, n, off)
                < state2.len() + j) by {
            assert(forall|j: int| 0 <= j < revs2.len() ==> revs2[j] == revs[j + 1]);
        };
        lemma_graft_basic(state2, revs2, n, off);
        assert(spec_graft(state, revs, n, off) == spec_graft(state2, revs2, n, off));
        assert(state2.len() == state.len() + 1);
        assert(forall|j: int| 0 <= j < revs2.len() ==> revs2[j] == revs[j + 1]);
        assert(forall|k: int|
            0 <= k < state.len() ==> state2[k].parent == state[k].parent && state2[k].transaction
                == state[k].transaction && state2[k].inversion == state[k].inversion
                && state2[k].timestamp == state[k].timestamp);
        assert(0 <= p <= usize::MAX);
        assert(state2[state.len() as int] == RevisionView { parent: p as usize, ..revs[0] });
        assert((state2[state.len() as int].parent as int) == p);
        assert forall|j: int|
            0 <= j < revs.len() implies {
                let g = #[trigger] spec_graft(state, revs, n, off)[state.len() + j];
                (g.parent as int) == spec_shift_parent(revs[j].parent, n, off) && g.transaction
                    == revs[j].transaction && g.inversion == revs[j].inversion && g.timestamp
                    == revs[j].timestamp
            } by {
            if j == 0 {
                let g = spec_graft(state2, revs2, n, off)[state.len() as int];
                assert(g.parent == state2[state.len() as int].parent && g.transaction
                    == state2[state.len() as int].transaction && g.inversion
                    == state2[state.len() as int].inversion && g.timestamp
                    == state2[state.len() as int].timestamp);
            } else {
                let g = spec_graft(state2, revs2, n, off)[state2.len() + (j - 1)];
                assert(state2.len() + (j - 1) == state.len() + j);
                assert(revs2[j - 1] == revs[j]);
                assert((g.parent as int) == spec_shift_parent(revs2[j - 1].parent, n, off));
            }
        };
    }
}

/// Length of the longest common prefix of two revision vectors, compared
/// by parent link and transactions.
fn common_prefix_len(a: &Vec<Revision>, b: &Vec<Revision>) -> (n: usize)
    ensures
        n as int == spec_common_prefix_len(rev_views(a@), rev_views(b@)),
        n <= a@.len() && n <= b@.len(),
{
    let ghost av = rev_views(a@);
    let ghost bv = rev_views(b@);
    let a_len = a.len();
    let b_len = b.len();
    let min: usize = if a_len < b_len {
        a_len
    } else {
        b_len
    };
    let mut n: usize = 0;
    while n < min
        invariant
            0 <= n <= min,
            min <= a_len && min <= b_len,
            min == a_len || min == b_len,
            a_len == a@.len(),
            b_len == b@.len(),
            av == rev_views(a@),
            bv == rev_views(b@),
            forall|j: int| 0 <= j < n ==> rev_sig_eq(av[j], bv[j]),
        ensures
            n <= min,
            forall|j: int| 0 <= j < n ==> rev_sig_eq(av[j], bv[j]),
            n == min || !rev_sig_eq(av[n as int], bv[n as int]),
        decreases min - n,
    {
        if !a[n].same_sig(&b[n]) {
            break ;
        }
        n += 1;
    }
    proof {
        lemma_common_prefix_len_from_pointwise(av, bv, n as int);
    }
    n
}

impl History {
    /// Merges the divergent suffix of `self` onto `other`'s tree.
    ///
    /// The two histories are compared pairwise until they first disagree;
    /// everything after that point in `self` is appended onto `other`'s
    /// revision sequence in order, with parent indexes that pointed into the
    /// divergent region shifted by the merge offset, and each new parent's
    /// `last_child` pointed at its graft. The merged sequence replaces
    /// `self.revisions`; `self.current` is shifted the same way. On any
    /// out-of-range rewritten index the merge fails with `InvalidOffset`
    /// and leaves `self` unchanged; on two well-formed histories it always
    /// succeeds and preserves well-formedness.
    #[verifier::loop_isolation(false)]
    #[verifier::rlimit(100)]
    pub fn merge(&mut self, other: History) -> (r: Result<(), StateError>)
        ensures
            ({
                let av = old(self)@.revisions;
                let bv = other@.revisions;
                let n = spec_common_prefix_len(av, bv);
                let off = spec_merge_offset(bv.len() as int, n);
                &&& (n == av.len() ==> r is Ok && final(self)@ == old(self)@)
                &&& (n < av.len() ==> {
                    let ok = spec_graft_ok(bv.len() as int, av.skip(n), n, off) && ((old(
                        self,
                    )@.current as int) < n || old(self)@.current + off <= usize::MAX);
                    &&& (r is Ok <==> ok)
                    &&& (r is Ok ==> final(self)@.revisions == spec_graft(bv, av.skip(n), n, off)
                        && (final(self)@.current as int) == spec_shift_parent(
                        old(self)@.current,
                        n,
                        off,
                    ) && final(self)@.undofile_parent == old(self)@.undofile_parent)
                })
                &&& (r is Ok ==> final(self)@.revisions == spec_merge_revisions(av, bv))
                &&& (r matches Err(e) ==> e is InvalidOffset && *final(self) == *old(self))
                &&& (history_wf(old(self)@) && history_wf(other@) ==> r is Ok && history_wf(
                    final(self)@,
                ))
            }),
    {
        let ghost old_view = self@;
        let ghost other_view = other@;
        let ghost av = self@.revisions;
        let ghost bv = other@.revisions;
        let a_len = self.revisions.len();
        let b_len = other.revisions.len();
        let n = common_prefix_len(&self.revisions, &other.revisions);
        if n == a_len {
            return Ok(());
        }
        let off: usize = if b_len > n {
            b_len - n - 1
        } else {
            0
        };
        assert(off as int == spec_merge_offset(bv.len() as int, n as int));
        let ghost suffix = av.skip(n as int);
        let ghost target = spec_graft(bv, suffix, n as int, off as int);
        let mut merged = other.revisions;
        proof {
            assert(rev_views(merged@) =~= bv);
            assert(suffix.skip(0) =~= suffix);
        }
        let mut i: usize = n;
        while i < a_len
            invariant
                n <= i <= a_len,
                n < a_len,
                self.revisions@ == old(self).revisions@,
                self.current == old(self).current,
                self.undofile_parent == old(self).undofile_parent,
                a_len == self.revisions@.len(),
                av == rev_views(self.revisions@),
                suffix == av.skip(n as int),
                suffix.len() == a_len - n,
                target == spec_graft(bv, suffix, n as int, off as int),
                off as int == spec_merge_offset(bv.len() as int, n as int),
                n <= b_len,
                b_len == bv.len(),
                merged@.len() == b_len + (i - n),
                spec_graft(rev_views(merged@), suffix.skip(i - n), n as int, off as int)
                    == target,
                forall|j: int|
                    0 <= j < i - n ==> 0 <= #[trigger] spec_shift_parent(
                        suffix[j].parent,
                        n as int,
                        off as int,
                    ) < b_len + j,
            decreases a_len - i,
        {
            let ghost st = rev_views(merged@);
            let ghost remaining = suffix.skip(i - n);
            assert(remaining[0] == av[i as int]);
            let m_len = merged.len();
            let p0 = self.revisions[i].parent;
            assert(p0 == av[i as int].parent);
            let p: usize;
            if p0 < n {
                p = p0;
            } else {
                match p0.checked_add(off) {
                    Some(q) => {
                        p = q;
                    },
                    None => {
                        proof {
                            let j = i - n;
                            assert(suffix[j].parent == p0);
                            assert(spec_shift_parent(suffix[j].parent, n as int, off as int) == (
                            p0 as int) + off);
                            assert((p0 as int) + off > usize::MAX);
                            assert(m_len as int == bv.len() + j);
                            assert(!spec_graft_ok(bv.len() as int, suffix, n as int, off as int));
                            if history_wf(old_view) && history_wf(other_view) {
                                assert(tree_shaped(av));
                                if i >= 1 {
                                    assert((av[i as int].parent as int) < i as int);
                                    assert(false);
                                } else {
                                    assert(is_root_shape(av[0]));
                                    assert(false);
                                }
                            }
                        }
                        return Err(StateError::InvalidOffset);
                    },
                }
            }
            assert(p as int == spec_shift_parent(suffix[i - n].parent, n as int, off as int));
            if p >= m_len {
                proof {
                    let j = i - n;
                    assert(p >= bv.len() + j);
                    assert(!spec_graft_ok(bv.len() as int, suffix, n as int, off as int));
                    if history_wf(old_view) && history_wf(other_view) {
                        assert(tree_shaped(av));
                        assert(bv.len() >= 1);
                        if i >= 1 {
                            assert((av[i as int].parent as int) < i as int);
                            assert(false);
                        } else {
                            assert(is_root_shape(av[0]));
                            assert(false);
                        }
                    }
                }
                return Err(StateError::InvalidOffset);
            }
            let idx = merged.len();
            let mut parent_rev = merged[p].duplicate();
            parent_rev.last_child = Some(idx);
            merged[p] = parent_rev;
            let mut new_rev = self.revisions[i].duplicate();
            new_rev.parent = p;
            merged.push(new_rev);
            proof {
                let updated = st.update(
                    p as int,
                    RevisionView { last_child: Some(st.len() as usize), ..st[p as int] },
                );
                let st2 = updated.push(RevisionView { parent: p, ..remaining[0] });
                assert(rev_views(merged@) =~= st2);
                assert(remaining.skip(1) =~= suffix.skip(i + 1 - n));
                assert(spec_graft(st, remaining, n as int, off as int) == spec_graft(
                    st2,
                    remaining.skip(1),
                    n as int,
                    off as int,
                ));
            }
            i += 1;
        }
        let total = merged.len();
        assert(total as int == bv.len() + suffix.len());
        let new_current: usize;
        if self.current >= n {
            match self.current.checked_add(off) {
                Some(c) => {
                    new_current = c;
                },
                None => {
                    proof {
                        if history_wf(old_view) && history_wf(other_view) {
                            assert((old_view.current as int) < a_len as int);
                            assert((old_view.current as int) + off <= usize::MAX);
                            assert(false);
                        }
                    }
                    return Err(StateError::InvalidOffset);
                },
            }
        } else {
            new_current = self.current;
        }
        self.revisions = merged;
        self.current = new_current;
        proof {
            assert(suffix.skip(a_len - n) =~= Seq::<RevisionView>::empty());
            assert(self@.revisions == target);
            assert(spec_graft_ok(bv.len() as int, suffix, n as int, off as int));
            assert((self@.current as int) == spec_shift_parent(
                old_view.current,
                n as int,
                off as int,
            ));
            if history_wf(old_view) && history_wf(other_view) {
                lemma_graft_basic(bv, suffix, n as int, off as int);
                let g = self@.revisions;
                assert(g == spec_graft(bv, suffix, n as int, off as int));
                assert(g.len() == bv.len() + suffix.len());
                assert(is_root_shape(g[0])) by {
                    assert(g[0].parent == bv[0].parent && g[0].transaction == bv[0].transaction
                        && g[0].inversion == bv[0].inversion && g[0].timestamp
                        == bv[0].timestamp);
                };
                assert forall|k: int| 1 <= k < g.len() implies (g[k].parent as int) < k by {
                    if k < bv.len() {
                        assert(g[k].parent == bv[k].parent);
                        assert(tree_shaped(bv));
                        assert((bv[k].parent as int) < k);
                    } else {
                        let j = k - bv.len();
                        assert(g[bv.len() + j] == g[k]);
                        assert((g[bv.len() + j].parent as int) == spec_shift_parent(
                            suffix[j].parent,
                            n as int,
                            off as int,
                        ));
                        assert(spec_shift_parent(suffix[j].parent, n as int, off as int) < bv.len()
                            + j);
                    }
                };
                assert(tree_shaped(g));
                assert((self@.current as int) < g.len()) by {
                    assert(n <= bv.len());
                    assert(total as int == bv.len() + suffix.len());
                };
                assert(history_wf(self@));
            }
        }
        Ok(())
    }
}


/// What merging compares, as a value: parent link and both transactions.
pub open spec fn rev_sig(r: RevisionView) -> (usize, TransactionView, TransactionView) {
    (r.parent, r.transaction, r.inversion)
}

/// The comparison keys of a whole revision sequence.
pub open spec fn rev_sigs(rs: Seq<RevisionView>) -> Seq<(usize, TransactionView, TransactionView)> {
    Seq::new(rs.len(), |i: int| rev_sig(rs[i]))
}

/// The revision sequence a merge produces: `other`'s revisions, then
/// `self`'s divergent suffix grafted on.
pub open spec fn spec_merge_revisions(a: Seq<RevisionView>, b: Seq<RevisionView>) -> Seq<
    RevisionView,
> {
    let n = spec_common_prefix_len(a, b);
    if n == a.len() {
        a
    } else {
        spec_graft(b, a.skip(n), n, spec_merge_offset(b.len() as int, n))
    }
}

/// Grafting revisions that all attach inside the shared prefix appends
/// them with unchanged parents: the comparison keys of the result are the
/// old keys followed by the grafted ones.
pub proof fn lemma_graft_flat(state: Seq<RevisionView>, revs: Seq<RevisionView>, n: int, off: int)
    requires
        0 <= n <= state.len(),
        forall|j: int| 0 <= j < revs.len() ==> (#[trigger] revs[j].parent as int) < n,
        state.len() + revs.len() <= usize::MAX,
    ensures
        rev_sigs(spec_graft(state, revs, n, off)) == rev_sigs(state) + rev_sigs(revs),
{
    assert(spec_graft_ok(state.len() as int, revs, n, off)) by {
        assert(forall|j: int|
            0 <= j < revs.len() ==> #[trigger] spec_shift_parent(revs[j].parent, n, off) == (
            revs[j].parent as int));
    };
    lemma_graft_basic(state, revs, n, off);
    let g = spec_graft(state, revs, n, off);
    assert forall|k: int| 0 <= k < g.len() implies rev_sigs(g)[k] == (rev_sigs(state) + rev_sigs(
        revs,
    ))[k] by {
        if k < state.len() {
            assert(g[k].parent == state[k].parent && g[k].transaction == state[k].transaction
                && g[k].inversion == state[k].inversion);
        } else {
            let j = k - state.len();
            assert(g[state.len() + j] == g[k]);
            assert((g[state.len() + j].parent as int) == spec_shift_parent(
                revs[j].parent,
                n,
                off,
            ) && g[state.len() + j].transaction == revs[j].transaction && g[state.len()
                + j].inversion == revs[j].inversion);
            assert(spec_shift_parent(revs[j].parent, n, off) == (revs[j].parent as int));
        }
    };
    assert(rev_sigs(g) =~= rev_sigs(state) + rev_sigs(revs));
}

/// Law: merging disjoint branches is order-independent up to index
/// relabeling. When `a`, `b` and `c` each diverge right after the shared
/// prefix `p` and attach their revisions inside it, merging the `a` branch
/// into the `b` branch and then the `c` branch into the result carries
/// exactly the same revisions — parent links and both transactions — as
/// merging the `c` branch into the `a` branch and then the `b` branch into
/// that result; only the order they sit in differs.
pub proof fn lemma_merge_order_independent(
    p: Seq<RevisionView>,
    a: Seq<RevisionView>,
    b: Seq<RevisionView>,
    c: Seq<RevisionView>,
)
    requires
        a.len() > 0 && b.len() > 0 && c.len() > 0,
        !rev_sig_eq(a[0], b[0]),
        !rev_sig_eq(a[0], c[0]),
        !rev_sig_eq(b[0], c[0]),
        forall|j: int| 0 <= j < a.len() ==> (#[trigger] a[j].parent as int) < p.len(),
        forall|j: int| 0 <= j < b.len() ==> (#[trigger] b[j].parent as int) < p.len(),
        forall|j: int| 0 <= j < c.len() ==> (#[trigger] c[j].parent as int) < p.len(),
        p.len() + a.len() + b.len() + c.len() <= usize::MAX,
    ensures
        rev_sigs(spec_merge_revisions(p + c, spec_merge_revisions(p + a, p + b))).to_multiset()
            == rev_sigs(spec_merge_revisions(p + b, spec_merge_revisions(p + c, p + a))).to_multiset(),
{
    broadcast use vstd::seq_lib::lemma_multiset_commutative;

    assert(rev_sigs(p + b) =~= rev_sigs(p) + rev_sigs(b));
    assert(rev_sigs(p + a) =~= rev_sigs(p) + rev_sigs(a));
    assert(rev_sigs(b + a) =~= rev_sigs(b) + rev_sigs(a));
    assert(rev_sigs(a + c) =~= rev_sigs(a) + rev_sigs(c));
    let ab = lemma_merge_flat_once(p, a, p + b, b);
    assert(rev_sigs(ab) =~= rev_sigs(p) + rev_sigs(b + a)) by {
        assert(rev_sigs(ab) == (rev_sigs(p) + rev_sigs(b)) + rev_sigs(a));
    };
    let ab_c = lemma_merge_flat_once(p, c, ab, b + a);
    let ca = lemma_merge_flat_once(p, c, p + a, a);
    assert(rev_sigs(ca) =~= rev_sigs(p) + rev_sigs(a + c)) by {
        assert(rev_sigs(ca) == (rev_sigs(p) + rev_sigs(a)) + rev_sigs(c));
    };
    let ca_b = lemma_merge_flat_once(p, b, ca, a + c);
    assert(rev_sigs(ab_c) == rev_sigs(p) + rev_sigs(b + a) + rev_sigs(c));
    assert(rev_sigs(ca_b) == rev_sigs(p) + rev_sigs(a + c) + rev_sigs(b));
    assert(rev_sigs(b + a) =~= rev_sigs(b) + rev_sigs(a));
    assert(rev_sigs(a + c) =~= rev_sigs(a) + rev_sigs(c));
    let sp = rev_sigs(p).to_multiset();
    let sa = rev_sigs(a).to_multiset();
    let sb = rev_sigs(b).to_multiset();
    let sc = rev_sigs(c).to_multiset();
    assert(rev_sigs(ab_c).to_multiset() == sp.add(sb.add(sa)).add(sc)) by {
        assert(rev_sigs(p) + (rev_sigs(b) + rev_sigs(a)) + rev_sigs(c) == rev_sigs(ab_c));
    };
    assert(rev_sigs(ca_b).to_multiset() == sp.add(sa.add(sc)).add(sb)) by {
        assert(rev_sigs(p) + (rev_sigs(a) + rev_sigs(c)) + rev_sigs(b) == rev_sigs(ca_b));
    };
    assert(sp.add(sb.add(sa)).add(sc) =~= sp.add(sa.add(sc)).add(sb));
}

/// One merge of a flat branch: `p + x` merged into `other`, where `other`
/// carries the keys of `p` followed by `suffix_sigs`, whose first element
/// differs from `x[0]`. Returns the merged sequence; its keys are
/// `other`'s keys followed by `x`'s.
proof fn lemma_merge_flat_once(
    p: Seq<RevisionView>,
    x: Seq<RevisionView>,
    other: Seq<RevisionView>,
    other_suffix: Seq<RevisionView>,
) -> (merged: Seq<RevisionView>)
    requires
        x.len() > 0,
        other_suffix.len() > 0,
        rev_sigs(other) == rev_sigs(p) + rev_sigs(other_suffix),
        other.len() == p.len() + other_suffix.len(),
        !rev_sig_eq(x[0], other_suffix[0]),
        forall|j: int| 0 <= j < x.len() ==> (#[trigger] x[j].parent as int) < p.len(),
        other.len() + x.len() <= usize::MAX,
    ensures
        merged == spec_merge_revisions(p + x, other),
        rev_sigs(merged) == rev_sigs(other) + rev_sigs(x),
        merged.len() == other.len() + x.len(),
{
    let px = p + x;
    assert forall|j: int| 0 <= j < p.len() implies rev_sig_eq(px[j], other[j]) by {
        assert(rev_sigs(px)[j] == rev_sig(px[j]));
        assert(rev_sigs(other)[j] == rev_sig(other[j]));
        assert(rev_sigs(other)[j] == rev_sigs(p)[j]);
        assert(px[j] == p[j]);
    };
    assert(!rev_sig_eq(px[p.len() as int], other[p.len() as int])) by {
        assert(px[p.len() as int] == x[0]);
        assert(rev_sig(other[p.len() as int]) == rev_sigs(other)[p.len() as int]);
        assert(rev_sigs(other)[p.len() as int] == rev_sigs(other_suffix)[0]);
        assert(rev_sigs(other_suffix)[0] == rev_sig(other_suffix[0]));
    };
    lemma_common_prefix_len_from_pointwise(px, other, p.len() as int);
    assert(spec_common_prefix_len(px, other) == p.len());
    assert(px.skip(p.len() as int) =~= x);
    lemma_graft_flat(
        other,
        x,
        p.len() as int,
        spec_merge_offset(other.len() as int, p.len() as int),
    );
    lemma_graft_basic(
        other,
        x,
        p.len() as int,
        spec_merge_offset(other.len() as int, p.len() as int),
    );
    assert(rev_sigs(spec_merge_revisions(px, other)) =~= rev_sigs(other) + rev_sigs(x));
    spec_merge_revisions(px, other)
}

} // verus!
