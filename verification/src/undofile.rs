//! A content-addressed chain of incremental history snapshots.
//!
//! Each node records the digest of the document at a checkpoint, a link to
//! the previous checkpoint, and the slice of the history's revisions that
//! is new since that checkpoint — so many saved states of one document
//! share a single growing log instead of re-serializing the whole history
//! at every save. [`UndoMap`] is the lightweight variant that stores only
//! revision counts, for chain-walking without loading diff contents.

use vstd::prelude::*;

verus! {

use crate::combinators::{spec_presence, spec_varint, write_presence, write_usize, write_varint};
use crate::hash::Digest;
use crate::history::error::StateError;
use crate::history::format::{eq_bytes, spec_enc_revisions, write_revisions};
use crate::history::{rev_views, History, Revision, RevisionView};

/// The revisions new since a parent checkpoint, plus where the navigation
/// pointer stood when the checkpoint was committed.
pub struct UndoStateDiff {
    /// The new revisions; only the concatenation along the parent chain
    /// forms a valid history.
    pub revisions: Vec<Revision>,
    /// The history's current revision index at commit time.
    pub current: usize,
}

/// Mathematical shape of an [`UndoStateDiff`].
#[verifier::ext_equal]
pub struct UndoStateDiffView {
    pub revisions: Seq<RevisionView>,
    pub current: usize,
}

impl View for UndoStateDiff {
    type V = UndoStateDiffView;

    open spec fn view(&self) -> UndoStateDiffView {
        UndoStateDiffView { revisions: rev_views(self.revisions@), current: self.current }
    }
}

/// One checkpoint of the full chain: document digest, parent link, diff.
pub struct UndoStorageNode {
    /// Digest of the document at this checkpoint.
    pub hash: Digest,
    /// The previous checkpoint this one extends, absent for a chain root.
    pub parent: Option<usize>,
    /// What this checkpoint adds over its parent.
    pub diff: UndoStateDiff,
}

/// Mathematical shape of an [`UndoStorageNode`].
#[verifier::ext_equal]
pub struct UndoStorageNodeView {
    pub hash: Seq<u8>,
    pub parent: Option<usize>,
    pub diff: UndoStateDiffView,
}

impl View for UndoStorageNode {
    type V = UndoStorageNodeView;

    open spec fn view(&self) -> UndoStorageNodeView {
        UndoStorageNodeView { hash: self.hash@, parent: self.parent, diff: self.diff@ }
    }
}

/// The chain of checkpoints, most recent last.
pub struct UndoStorage {
    /// When the chain was last written.
    pub timestamp: u64,
    /// Checkpoints in commit order; the current one is always the last.
    pub nodes: Vec<UndoStorageNode>,
}

/// Mathematical shape of an [`UndoStorage`].
#[verifier::ext_equal]
pub struct UndoStorageView {
    pub timestamp: u64,
    pub nodes: Seq<UndoStorageNodeView>,
}

impl View for UndoStorage {
    type V = UndoStorageView;

    open spec fn view(&self) -> UndoStorageView {
        UndoStorageView {
            timestamp: self.timestamp,
            nodes: Seq::new(self.nodes@.len(), |i: int| self.nodes@[i]@),
        }
    }
}

/// A checkpoint as the lightweight map records it: digest, parent link,
/// and only the number of revisions, not their contents.
pub struct UndoMapNode {
    /// Digest of the document at this checkpoint.
    pub hash: Digest,
    /// The previous checkpoint this one extends, absent for a chain root.
    pub parent: Option<usize>,
    /// Number of revisions this checkpoint added.
    pub changes: usize,
}

/// Mathematical shape of an [`UndoMapNode`].
#[verifier::ext_equal]
pub struct UndoMapNodeView {
    pub hash: Seq<u8>,
    pub parent: Option<usize>,
    pub changes: usize,
}

impl View for UndoMapNode {
    type V = UndoMapNodeView;

    open spec fn view(&self) -> UndoMapNodeView {
        UndoMapNodeView { hash: self.hash@, parent: self.parent, changes: self.changes }
    }
}

/// The lightweight chain map every client can maintain cheaply.
pub struct UndoMap {
    /// When the map was last written.
    pub timestamp: u64,
    /// Checkpoints in commit order.
    pub nodes: Vec<UndoMapNode>,
}

/// Mathematical shape of an [`UndoMap`].
#[verifier::ext_equal]
pub struct UndoMapView {
    pub timestamp: u64,
    pub nodes: Seq<UndoMapNodeView>,
}

impl View for UndoMap {
    type V = UndoMapView;

    open spec fn view(&self) -> UndoMapView {
        UndoMapView {
            timestamp: self.timestamp,
            nodes: Seq::new(self.nodes@.len(), |i: int| self.nodes@[i]@),
        }
    }
}

/// Revisions already represented in the chain at node `i`: the sum of
/// `changes` along the parent walk back to a parentless node. `None` when
/// an index is out of range or a parent link does not point strictly
/// earlier.
pub open spec fn spec_map_offset(nodes: Seq<UndoMapNodeView>, i: int) -> Option<int>
    decreases i,
{
    if i < 0 || i >= nodes.len() {
        None
    } else {
        match nodes[i].parent {
            None => Some(nodes[i].changes as int),
            Some(a) => if (a as int) < i {
                match spec_map_offset(nodes, a as int) {
                    Some(o) => Some(o + nodes[i].changes),
                    None => None,
                }
            } else {
                None
            },
        }
    }
}

/// Same walk over the full chain, counting each diff's revisions.
pub open spec fn spec_storage_offset(nodes: Seq<UndoStorageNodeView>, i: int) -> Option<int>
    decreases i,
{
    if i < 0 || i >= nodes.len() {
        None
    } else {
        match nodes[i].parent {
            None => Some(nodes[i].diff.revisions.len() as int),
            Some(a) => if (a as int) < i {
                match spec_storage_offset(nodes, a as int) {
                    Some(o) => Some(o + nodes[i].diff.revisions.len()),
                    None => None,
                }
            } else {
                None
            },
        }
    }
}

/// Walks parent links from `start`, summing revision counts.
fn chain_offset_map(nodes: &Vec<UndoMapNode>, start: usize) -> (r: Result<usize, StateError>)
    requires
        (start as int) < nodes@.len(),
    ensures
        ({
            let nv = Seq::new(nodes@.len(), |i: int| nodes@[i]@);
            match r {
                Ok(off) => spec_map_offset(nv, start as int) == Some(off as int),
                Err(e) => e is InvalidOffset && (match spec_map_offset(nv, start as int) {
                    None => true,
                    Some(o) => o > usize::MAX,
                }),
            }
        }),
    decreases start,
{
    let changes = nodes[start].changes;
    match nodes[start].parent {
        None => Ok(changes),
        Some(a) => {
            if a >= start {
                return Err(StateError::InvalidOffset);
            }
            match chain_offset_map(nodes, a) {
                Ok(o) => match o.checked_add(changes) {
                    Some(t) => Ok(t),
                    None => Err(StateError::InvalidOffset),
                },
                Err(e) => Err(e),
            }
        },
    }
}

/// Walks parent links from `start` in the full chain, summing diff sizes.
fn chain_offset_storage(nodes: &Vec<UndoStorageNode>, start: usize) -> (r: Result<
    usize,
    StateError,
>)
    requires
        (start as int) < nodes@.len(),
    ensures
        ({
            let nv = Seq::new(nodes@.len(), |i: int| nodes@[i]@);
            match r {
                Ok(off) => spec_storage_offset(nv, start as int) == Some(off as int),
                Err(e) => e is InvalidOffset && (match spec_storage_offset(nv, start as int) {
                    None => true,
                    Some(o) => o > usize::MAX,
                }),
            }
        }),
    decreases start,
{
    let count = nodes[start].diff.revisions.len();
    match nodes[start].parent {
        None => Ok(count),
        Some(a) => {
            if a >= start {
                return Err(StateError::InvalidOffset);
            }
            match chain_offset_storage(nodes, a) {
                Ok(o) => match o.checked_add(count) {
                    Some(t) => Ok(t),
                    None => Err(StateError::InvalidOffset),
                },
                Err(e) => Err(e),
            }
        },
    }
}

/// Copies of the revisions from `offset` onward.
fn clone_revisions_from(revisions: &Vec<Revision>, offset: usize) -> (r: Vec<Revision>)
    requires
        offset <= revisions@.len(),
    ensures
        rev_views(r@) == rev_views(revisions@).skip(offset as int),
{
    let n = revisions.len();
    let mut out: Vec<Revision> = Vec::new();
    let mut i = offset;
    while i < n
        invariant
            offset <= i <= n,
            n == revisions@.len(),
            out@.len() == i - offset,
            forall|j: int|
                0 <= j < out@.len() ==> #[trigger] out@[j]@ == revisions@[offset + j]@,
        decreases n - i,
    {
        let rev = revisions[i].duplicate();
        out.push(rev);
        i += 1;
    }
    assert(rev_views(out@) =~= rev_views(revisions@).skip(offset as int));
    out
}

impl UndoMap {
    /// Records a checkpoint of `history` at document digest `file_hash`.
    ///
    /// When the history carries a parent checkpoint, that node must still
    /// hold the digest the session recorded (`InvalidHash` otherwise); the
    /// walk from it sums the revisions already represented, and the new
    /// node records only the count of revisions beyond that. Without a
    /// parent checkpoint the new node is a chain root counting the whole
    /// revision sequence. Any out-of-range index fails with
    /// `InvalidOffset` and leaves the map unchanged.
    pub fn commit(&mut self, history: &History, file_hash: Digest) -> (r: Result<(), StateError>)
        ensures
            ({
                let nodes = old(self)@.nodes;
                let hlen = history@.revisions.len();
                &&& final(self)@.timestamp == old(self)@.timestamp
                &&& match history@.undofile_parent {
                    None => {
                        &&& r is Ok
                        &&& final(self)@.nodes == nodes.push(
                            UndoMapNodeView {
                                hash: file_hash@,
                                parent: None,
                                changes: (hlen as usize),
                            },
                        )
                    },
                    Some(p) => {
                        let ok = (p.0 as int) < nodes.len() && nodes[p.0 as int].hash == p.1 && (
                        match spec_map_offset(nodes, p.0 as int) {
                            Some(o) => 0 <= o <= hlen,
                            None => false,
                        });
                        &&& (r is Ok <==> ok)
                        &&& (r is Ok ==> final(self)@.nodes == nodes.push(
                            UndoMapNodeView {
                                hash: file_hash@,
                                parent: Some((nodes.len() - 1) as usize),
                                changes: ((hlen - spec_map_offset(
                                    nodes,
                                    p.0 as int,
                                ).unwrap()) as usize),
                            },
                        ))
                        &&& (r matches Err(e) ==> final(self)@ == old(self)@ && (e
                            is InvalidOffset || e is InvalidHash) && (e is InvalidHash <==> (
                        p.0 as int) < nodes.len() && nodes[p.0 as int].hash != p.1))
                    },
                }
            }),
    {
        let hist_len = history.revisions.len();
        match &history.undofile_parent {
            None => {
                let node = UndoMapNode { hash: file_hash, parent: None, changes: hist_len };
                self.nodes.push(node);
                assert(self@.nodes =~= old(self)@.nodes.push(
                    UndoMapNodeView { hash: file_hash@, parent: None, changes: hist_len },
                ));
                Ok(())
            },
            Some(p) => {
                let pi = p.0;
                if pi >= self.nodes.len() {
                    return Err(StateError::InvalidOffset);
                }
                assert(self@.nodes[pi as int].hash == self.nodes@[pi as int].hash@);
                if !eq_bytes(self.nodes[pi].hash.as_slice(), p.1.as_slice()) {
                    return Err(StateError::InvalidHash);
                }
                let offset = match chain_offset_map(&self.nodes, pi) {
                    Ok(o) => o,
                    Err(e) => {
                        proof {
                            assert(Seq::new(self.nodes@.len(), |i: int| self.nodes@[i]@)
                                =~= old(self)@.nodes);
                        }
                        return Err(e);
                    },
                };
                proof {
                    assert(Seq::new(self.nodes@.len(), |i: int| self.nodes@[i]@) =~= old(
                        self,
                    )@.nodes);
                }
                if offset > hist_len {
                    return Err(StateError::InvalidOffset);
                }
                let parent_idx = self.nodes.len() - 1;
                let node = UndoMapNode {
                    hash: file_hash,
                    parent: Some(parent_idx),
                    changes: hist_len - offset,
                };
                self.nodes.push(node);
                assert(self@.nodes =~= old(self)@.nodes.push(
                    UndoMapNodeView {
                        hash: file_hash@,
                        parent: Some(parent_idx),
                        changes: (hist_len - offset) as usize,
                    },
                ));
                Ok(())
            },
        }
    }
}

impl UndoStorage {
    /// Records a full checkpoint of `history` at document digest
    /// `file_hash`, carrying the revisions new since the parent
    /// checkpoint as the node's diff, together with the history's current
    /// index. The checks and the walk are those of [`UndoMap::commit`].
    pub fn commit(&mut self, history: &History, file_hash: Digest) -> (r: Result<(), StateError>)
        ensures
            ({
                let nodes = old(self)@.nodes;
                let hrevs = history@.revisions;
                &&& final(self)@.timestamp == old(self)@.timestamp
                &&& match history@.undofile_parent {
                    None => {
                        &&& r is Ok
                        &&& final(self)@.nodes == nodes.push(
                            UndoStorageNodeView {
                                hash: file_hash@,
                                parent: None,
                                diff: UndoStateDiffView {
                                    revisions: hrevs,
                                    current: history@.current,
                                },
                            },
                        )
                    },
                    Some(p) => {
                        let ok = (p.0 as int) < nodes.len() && nodes[p.0 as int].hash == p.1 && (
                        match spec_storage_offset(nodes, p.0 as int) {
                            Some(o) => 0 <= o <= hrevs.len(),
                            None => false,
                        });
                        &&& (r is Ok <==> ok)
                        &&& (r is Ok ==> final(self)@.nodes == nodes.push(
                            UndoStorageNodeView {
                                hash: file_hash@,
                                parent: Some((nodes.len() - 1) as usize),
                                diff: UndoStateDiffView {
                                    revisions: hrevs.skip(
                                        spec_storage_offset(nodes, p.0 as int).unwrap(),
                                    ),
                                    current: history@.current,
                                },
                            },
                        ))
                        &&& (r matches Err(e) ==> final(self)@ == old(self)@ && (e
                            is InvalidOffset || e is InvalidHash) && (e is InvalidHash <==> (
                        p.0 as int) < nodes.len() && nodes[p.0 as int].hash != p.1))
                    },
                }
            }),
    {
        let hist_len = history.revisions.len();
        match &history.undofile_parent {
            None => {
                let revisions = clone_revisions_from(&history.revisions, 0);
                let diff = UndoStateDiff { revisions, current: history.current };
                let node = UndoStorageNode { hash: file_hash, parent: None, diff };
                self.nodes.push(node);
                assert(rev_views(history.revisions@).skip(0) =~= history@.revisions);
                assert(self@.nodes =~= old(self)@.nodes.push(
                    UndoStorageNodeView {
                        hash: file_hash@,
                        parent: None,
                        diff: UndoStateDiffView {
                            revisions: history@.revisions,
                            current: history@.current,
                        },
                    },
                ));
                Ok(())
            },
            Some(p) => {
                let pi = p.0;
                if pi >= self.nodes.len() {
                    return Err(StateError::InvalidOffset);
                }
                assert(self@.nodes[pi as int].hash == self.nodes@[pi as int].hash@);
                if !eq_bytes(self.nodes[pi].hash.as_slice(), p.1.as_slice()) {
                    return Err(StateError::InvalidHash);
                }
                let offset = match chain_offset_storage(&self.nodes, pi) {
                    Ok(o) => o,
                    Err(e) => {
                        proof {
                            assert(Seq::new(self.nodes@.len(), |i: int| self.nodes@[i]@)
                                =~= old(self)@.nodes);
                        }
                        return Err(e);
                    },
                };
                proof {
                    assert(Seq::new(self.nodes@.len(), |i: int| self.nodes@[i]@) =~= old(
                        self,
                    )@.nodes);
                }
                if offset > hist_len {
                    return Err(StateError::InvalidOffset);
                }
                let revisions = clone_revisions_from(&history.revisions, offset);
                let diff = UndoStateDiff { revisions, current: history.current };
                let parent_idx = self.nodes.len() - 1;
                let node = UndoStorageNode { hash: file_hash, parent: Some(parent_idx), diff };
                self.nodes.push(node);
                assert(rev_views(history.revisions@).skip(offset as int)
                    =~= history@.revisions.skip(offset as int));
                assert(self@.nodes =~= old(self)@.nodes.push(
                    UndoStorageNodeView {
                        hash: file_hash@,
                        parent: Some(parent_idx),
                        diff: UndoStateDiffView {
                            revisions: history@.revisions.skip(offset as int),
                            current: history@.current,
                        },
                    },
                ));
                Ok(())
            },
        }
    }
}

/// Encoding of an optional chain index: presence flag, then the index.
pub open spec fn spec_enc_option_index(o: Option<usize>) -> Seq<u8> {
    match o {
        None => spec_presence(false),
        Some(i) => spec_presence(true) + spec_varint(i as nat),
    }
}

/// Encoding of one chain node: digest bytes, parent link, diff revision
/// count, the diff's revisions, then the diff's current index.
pub open spec fn spec_enc_storage_node(n: UndoStorageNodeView) -> Seq<u8> {
    n.hash + spec_enc_option_index(n.parent) + spec_varint(n.diff.revisions.len())
        + spec_enc_revisions(n.diff.revisions) + spec_varint(n.diff.current as nat)
}

/// Encoding of a list of chain nodes, without a count.
pub open spec fn spec_enc_storage_nodes(ns: Seq<UndoStorageNodeView>) -> Seq<u8>
    decreases ns.len(),
{
    if ns.len() == 0 {
        Seq::empty()
    } else {
        spec_enc_storage_node(ns[0]) + spec_enc_storage_nodes(ns.skip(1))
    }
}

/// Appending one more node extends the encoding at its end.
pub proof fn lemma_enc_storage_nodes_push(ns: Seq<UndoStorageNodeView>, n: UndoStorageNodeView)
    ensures
        spec_enc_storage_nodes(ns.push(n)) == spec_enc_storage_nodes(ns) + spec_enc_storage_node(
            n,
        ),
    decreases ns.len(),
{
    if ns.len() == 0 {
        assert(ns.push(n)[0] == n);
        assert(ns.push(n).skip(1) =~= Seq::<UndoStorageNodeView>::empty());
        assert(spec_enc_storage_nodes(ns.push(n)) == spec_enc_storage_node(n)
            + spec_enc_storage_nodes(ns.push(n).skip(1)));
        assert(spec_enc_storage_nodes(ns.push(n).skip(1)) == Seq::<u8>::empty());
        assert(spec_enc_storage_nodes(ns) == Seq::<u8>::empty());
        assert(spec_enc_storage_nodes(ns.push(n)) =~= spec_enc_storage_nodes(ns)
            + spec_enc_storage_node(n));
    } else {
        assert(ns.push(n).skip(1) =~= ns.skip(1).push(n));
        lemma_enc_storage_nodes_push(ns.skip(1), n);
        assert(ns.push(n)[0] == ns[0]);
        assert(spec_enc_storage_nodes(ns.push(n)) == spec_enc_storage_node(ns[0])
            + spec_enc_storage_nodes(ns.skip(1).push(n)));
        assert(spec_enc_storage_nodes(ns.push(n)) =~= spec_enc_storage_nodes(ns)
            + spec_enc_storage_node(n));
    }
}

/// Encoding of the whole chain: timestamp, node count, then the nodes.
pub open spec fn spec_enc_storage(s: UndoStorageView) -> Seq<u8> {
    spec_varint(s.timestamp as nat) + spec_varint(s.nodes.len()) + spec_enc_storage_nodes(s.nodes)
}

impl UndoStorage {
    /// Encodes the whole chain to bytes.
    #[verifier::loop_isolation(false)]
    #[verifier::rlimit(100)]
    pub fn serialize(&self) -> (r: Vec<u8>)
        ensures
            r@ == spec_enc_storage(self@),
    {
        let mut buf: Vec<u8> = Vec::new();
        write_varint(&mut buf, self.timestamp);
        write_usize(&mut buf, self.nodes.len());
        let ghost head = buf@;
        assert(buf@ =~= head + spec_enc_storage_nodes(self@.nodes.take(0)));
        let n = self.nodes.len();
        let mut i: usize = 0;
        while i < n
            invariant
                0 <= i <= n,
                n == self.nodes@.len(),
                buf@ == head + spec_enc_storage_nodes(self@.nodes.take(i as int)),
            decreases n - i,
        {
            let node = &self.nodes[i];
            buf.extend_from_slice(node.hash.as_slice());
            match &node.parent {
                None => {
                    write_presence(&mut buf, false);
                },
                Some(pi) => {
                    write_presence(&mut buf, true);
                    write_usize(&mut buf, *pi);
                },
            }
            write_usize(&mut buf, node.diff.revisions.len());
            write_revisions(&mut buf, &node.diff.revisions, 0);
            assert(rev_views(node.diff.revisions@).skip(0) =~= node.diff@.revisions);
            write_varint(&mut buf, node.diff.current as u64);
            proof {
                lemma_enc_storage_nodes_push(self@.nodes.take(i as int), self@.nodes[i as int]);
                assert(self@.nodes.take(i + 1) =~= self@.nodes.take(i as int).push(
                    self@.nodes[i as int],
                ));
                assert(buf@ =~= head + spec_enc_storage_nodes(self@.nodes.take(i + 1)));
            }
            i += 1;
        }
        assert(self@.nodes.take(n as int) =~= self@.nodes);
        assert(buf@ =~= spec_enc_storage(self@));
        buf
    }
}

} // verus!
