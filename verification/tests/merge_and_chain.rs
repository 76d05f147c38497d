use undo_history::hash::get_hash;
use undo_history::history::error::StateError;
use undo_history::history::History;
use undo_history::transaction::{ChangeSet, Operation, Transaction};
use undo_history::undofile::{UndoMap, UndoMapNode, UndoStateDiff, UndoStorage, UndoStorageNode};

fn insert_tx(text: &str) -> Transaction {
    Transaction {
        changes: ChangeSet {
            changes: vec![Operation::Insert(text.to_owned())],
            len: 0,
            len_after: text.len(),
        },
        selection: None,
    }
}

fn delete_tx(n: usize) -> Transaction {
    Transaction {
        changes: ChangeSet { changes: vec![Operation::Delete(n)], len: n, len_after: 0 },
        selection: None,
    }
}

fn history_with(texts: &[&str]) -> History {
    let mut h = History::new();
    for t in texts {
        h.record(insert_tx(t), delete_tx(t.len()), None, 1);
    }
    h
}

fn inserted_text(h: &History, i: usize) -> String {
    match &h.get_revisions()[i].transaction.changes.changes[0] {
        Operation::Insert(s) => s.clone(),
        _ => panic!("not an insert"),
    }
}

#[test]
fn merge_of_identical_histories_is_a_no_op() {
    let mut a = history_with(&["r1", "r2"]);
    let b = history_with(&["r1", "r2"]);
    a.merge(b).unwrap();
    assert_eq!(a.get_revisions().len(), 3);
    assert_eq!(a.current_revision(), 2);
}

#[test]
fn merge_grafts_divergent_revision() {
    // A = [root, R1, R2] (current=2); B = [root, R1, R3] with R3 != R2,
    // both children of R1. Merging A into B keeps both branches: B's
    // revisions first, then A's divergent suffix, with R1's last_child
    // repointed at the graft.
    let mut a = history_with(&["r1", "r2"]);
    let b = history_with(&["r1", "r3"]);
    a.merge(b).unwrap();

    let revs = a.get_revisions();
    assert_eq!(revs.len(), 4);
    assert_eq!(inserted_text(&a, 1), "r1");
    assert_eq!(inserted_text(&a, 2), "r3");
    assert_eq!(inserted_text(&a, 3), "r2");
    // both branches hang off R1
    assert_eq!(a.get_revisions()[2].parent, 1);
    assert_eq!(a.get_revisions()[3].parent, 1);
    // the graft becomes the most recent branch at the attachment point
    assert_eq!(a.get_revisions()[1].last_child, Some(3));
    assert_eq!(a.current_revision(), 2);
}

#[test]
fn merge_onto_shorter_prefix_appends_in_place() {
    // The other history is exactly the shared prefix: the suffix lands
    // right after it with parents unchanged.
    let mut a = history_with(&["r1", "r2"]);
    let b = history_with(&["r1"]);
    a.merge(b).unwrap();
    let revs = a.get_revisions();
    assert_eq!(revs.len(), 3);
    assert_eq!(revs[2].parent, 1);
    assert_eq!(inserted_text(&a, 2), "r2");
    assert_eq!(a.current_revision(), 2);
}

#[test]
fn merge_order_independent_for_disjoint_branches() {
    // a, b, c all diverge from the shared prefix [root]: whichever order
    // the merges run in, the same three branches end up in the tree, all
    // children of the root.
    let order1 = {
        let mut x = history_with(&["a"]);
        x.merge(history_with(&["b"])).unwrap();
        let mut y = history_with(&["c"]);
        y.merge(x).unwrap();
        y
    };
    let order2 = {
        let mut x = history_with(&["c"]);
        x.merge(history_with(&["a"])).unwrap();
        let mut y = history_with(&["b"]);
        y.merge(x).unwrap();
        y
    };
    for h in [&order1, &order2] {
        assert_eq!(h.get_revisions().len(), 4);
        let mut texts: Vec<String> = (1..4).map(|i| inserted_text(h, i)).collect();
        texts.sort();
        assert_eq!(texts, vec!["a".to_owned(), "b".to_owned(), "c".to_owned()]);
        for i in 1..4 {
            assert_eq!(h.get_revisions()[i].parent, 0);
        }
    }
}

#[test]
fn storage_commit_appends_incremental_diff() {
    // Chain has node0 {digest=d0, diff=[root, R1]}; the history now holds
    // [root, R1, R2, R3] and records node0 as its parent checkpoint.
    // Committing yields node1 {digest=d1, parent=0, diff=[R2, R3]}.
    let d0 = get_hash(b"contents at first save");
    let d1 = get_hash(b"contents at second save");

    let base = history_with(&["r1"]);
    let mut storage = UndoStorage { timestamp: 0, nodes: Vec::new() };
    storage.commit(&base, d0.clone()).unwrap();
    assert_eq!(storage.nodes.len(), 1);
    assert_eq!(storage.nodes[0].hash, d0);
    assert_eq!(storage.nodes[0].parent, None);
    assert_eq!(storage.nodes[0].diff.revisions.len(), 2);

    let mut h = history_with(&["r1", "r2", "r3"]);
    h.set_undofile_parent(0, d0.clone());
    storage.commit(&h, d1.clone()).unwrap();

    assert_eq!(storage.nodes.len(), 2);
    let node1 = &storage.nodes[1];
    assert_eq!(node1.hash, d1);
    assert_eq!(node1.parent, Some(0));
    assert_eq!(node1.diff.revisions.len(), 2);
    assert_eq!(node1.diff.current, 3);
    match &node1.diff.revisions[0].transaction.changes.changes[0] {
        Operation::Insert(s) => assert_eq!(s, "r2"),
        _ => panic!("not an insert"),
    }
    match &node1.diff.revisions[1].transaction.changes.changes[0] {
        Operation::Insert(s) => assert_eq!(s, "r3"),
        _ => panic!("not an insert"),
    }
}

#[test]
fn map_commit_counts_revisions() {
    let d0 = get_hash(b"v1");
    let d1 = get_hash(b"v2");
    let mut map = UndoMap { timestamp: 0, nodes: Vec::new() };
    let base = history_with(&["r1"]);
    map.commit(&base, d0.clone()).unwrap();
    assert_eq!(map.nodes[0].changes, 2);
    assert_eq!(map.nodes[0].parent, None);

    let mut h = history_with(&["r1", "r2", "r3"]);
    h.set_undofile_parent(0, d0);
    map.commit(&h, d1).unwrap();
    assert_eq!(map.nodes.len(), 2);
    assert_eq!(map.nodes[1].parent, Some(0));
    assert_eq!(map.nodes[1].changes, 2);
}

#[test]
fn commit_rejects_mutated_chain() {
    // The recorded parent digest no longer matches the chain node: the
    // chain was changed concurrently, so the commit must fail.
    let d0 = get_hash(b"v1");
    let mut map = UndoMap { timestamp: 0, nodes: Vec::new() };
    map.commit(&history_with(&["r1"]), d0).unwrap();

    let mut h = history_with(&["r1", "r2"]);
    h.set_undofile_parent(0, get_hash(b"something else"));
    assert!(matches!(map.commit(&h, get_hash(b"v2")), Err(StateError::InvalidHash)));
    assert_eq!(map.nodes.len(), 1);
}

#[test]
fn commit_rejects_out_of_range_checkpoint() {
    let mut map = UndoMap { timestamp: 0, nodes: Vec::new() };
    let mut h = history_with(&["r1"]);
    h.set_undofile_parent(3, get_hash(b"v1"));
    assert!(matches!(map.commit(&h, get_hash(b"v2")), Err(StateError::InvalidOffset)));
    assert!(map.nodes.is_empty());
}

#[test]
fn storage_serialize_is_deterministic_and_nonempty() {
    let d0 = get_hash(b"v1");
    let mut storage = UndoStorage { timestamp: 17, nodes: Vec::new() };
    storage.commit(&history_with(&["r1"]), d0).unwrap();
    let once = storage.serialize();
    let twice = storage.serialize();
    assert_eq!(once, twice);
    // timestamp varint, count varint, then at least the 20 digest bytes
    assert!(once.len() > 22);
    assert_eq!(once[0], 17);
    assert_eq!(once[1], 1);
    // the digest bytes follow immediately
    assert_eq!(&once[2..22], &storage.nodes[0].hash[..]);
}

#[test]
fn map_node_fields_survive_construction() {
    let node = UndoMapNode { hash: get_hash(b"z"), parent: Some(4), changes: 9 };
    assert_eq!(node.parent, Some(4));
    assert_eq!(node.changes, 9);
    let sn = UndoStorageNode {
        hash: get_hash(b"z"),
        parent: None,
        diff: UndoStateDiff { revisions: Vec::new(), current: 0 },
    };
    assert_eq!(sn.diff.revisions.len(), 0);
}
