use undo_history::combinators::{read_varint, write_varint};
use undo_history::hash::get_hash;
use undo_history::history::error::StateError;
use undo_history::history::{History, Revision};
use undo_history::transaction::{ChangeSet, Operation, Range, Selection, Transaction};

fn insert_tx(text: &str) -> Transaction {
    Transaction {
        changes: ChangeSet {
            changes: vec![Operation::Insert(text.to_owned())],
            len: 0,
            len_after: text.len(),
        },
        selection: None,
    }
}

fn delete_tx(n: usize) -> Transaction {
    Transaction {
        changes: ChangeSet { changes: vec![Operation::Delete(n)], len: n, len_after: 0 },
        selection: None,
    }
}

fn full_bytes(h: &History, file: &[u8], last_saved: usize, ts: u64) -> Vec<u8> {
    let (mut header, tail) = h.serialize(file, last_saved, ts, 0);
    header.extend_from_slice(&tail);
    header
}

#[test]
fn digest_is_deterministic_and_sensitive() {
    let a = get_hash(b"some document contents");
    let b = get_hash(b"some document contents");
    assert_eq!(a, b);
    assert_eq!(a.len(), 20);
    let c = get_hash(b"some document content!");
    assert_ne!(a, c);
    let empty = get_hash(b"");
    assert_eq!(empty.len(), 20);
    assert_ne!(a, empty);
}

#[test]
fn digest_matches_published_vector() {
    let h = get_hash("Hello world!".as_bytes());
    assert_eq!(&h[..4], &[0x15, 0x5f, 0x0a, 0x35]);
}

#[test]
fn varint_round_trips() {
    for v in [0u64, 1, 127, 128, 129, 300, 16383, 16384, u64::MAX] {
        let mut buf: Vec<u8> = Vec::new();
        write_varint(&mut buf, v);
        let (back, end) = read_varint(&buf, 0).unwrap();
        assert_eq!(back, v);
        assert_eq!(end, buf.len());
    }
}

#[test]
fn varint_rejects_truncation() {
    let mut buf: Vec<u8> = Vec::new();
    write_varint(&mut buf, 300);
    buf.pop();
    assert!(matches!(read_varint(&buf, 0), Err(StateError::Io)));
}

#[test]
fn record_undo_redo_navigation() {
    let mut h = History::new();
    assert_eq!(h.current_revision(), 0);
    h.record(insert_tx("a"), delete_tx(1), None, 10);
    h.record(insert_tx("b"), delete_tx(1), None, 11);
    assert_eq!(h.current_revision(), 2);
    h.undo();
    assert_eq!(h.current_revision(), 1);
    h.redo();
    assert_eq!(h.current_revision(), 2);
    h.undo();
    h.undo();
    assert_eq!(h.current_revision(), 0);
    // undo at the root stays put: the root is its own parent
    h.undo();
    assert_eq!(h.current_revision(), 0);
    h.redo();
    assert_eq!(h.current_revision(), 1);
}

#[test]
fn redo_without_child_is_a_no_op() {
    let mut h = History::new();
    h.redo();
    assert_eq!(h.current_revision(), 0);
}

#[test]
fn save_and_reload_round_trips() {
    // History X = [root]; append R1 (parent 0) and R2 (parent 1); save with
    // offset 0; reload against the unmodified target file.
    let mut x = History::new();
    x.record(insert_tx("one"), delete_tx(3), None, 100);
    x.record(insert_tx("two"), delete_tx(3), None, 200);
    let file = b"the live document";
    let bytes = full_bytes(&x, file, 2, 777);

    let (hdr, back) = History::deserialize(&bytes, file).unwrap();
    assert_eq!(hdr.current, 2);
    assert_eq!(hdr.last_saved_revision, 2);
    assert_eq!(hdr.timestamp, 777);
    assert_eq!(back.current_revision(), 2);
    let revs = back.get_revisions();
    assert_eq!(revs.len(), 3);
    assert_eq!(revs[0].last_child, Some(1));
    assert_eq!(revs[1].last_child, Some(2));
    assert_eq!(revs[2].last_child, None);
    assert_eq!(revs[1].parent, 0);
    assert_eq!(revs[2].parent, 1);
    assert!(revs[1].transaction.equals(&insert_tx("one")));
    assert!(revs[2].transaction.equals(&insert_tx("two")));
    assert_eq!(revs[1].timestamp, 100);
    assert_eq!(revs[2].timestamp, 200);
}

#[test]
fn round_trip_keeps_selections_and_every_operation_kind() {
    let sel = Selection {
        ranges: vec![
            Range { anchor: 3, head: 9, old_visual_position: Some((1, 4)) },
            Range { anchor: 0, head: 0, old_visual_position: None },
        ],
        primary_index: 1,
    };
    let tx = Transaction {
        changes: ChangeSet {
            changes: vec![
                Operation::Retain(5),
                Operation::Delete(2),
                Operation::Insert("h\u{00e9}llo \u{2603}".to_owned()),
            ],
            len: 7,
            len_after: 12,
        },
        selection: Some(sel),
    };
    let inv = delete_tx(7);
    let mut h = History::new();
    h.record(tx.duplicate(), inv, None, 42);
    let file = b"doc";
    let bytes = full_bytes(&h, file, 1, 1);
    let (_, back) = History::deserialize(&bytes, file).unwrap();
    let revs = back.get_revisions();
    assert_eq!(revs.len(), 2);
    // record() replaces the stored forward transaction's selection with the
    // recorded selection-after (here: none)
    let stored = Transaction { changes: tx.changes, selection: None };
    assert!(revs[1].transaction.equals(&stored));
}

#[test]
fn wrong_magic_and_wrong_version_are_invalid_header() {
    let h = History::new();
    let file = b"doc";
    let mut bytes = full_bytes(&h, file, 0, 0);
    let good = bytes.clone();

    bytes[0] = b'X';
    assert!(matches!(
        History::read_header(&bytes, file),
        Err(StateError::InvalidHeader)
    ));

    let mut v = good.clone();
    v[5] = 2; // an unsupported future version
    assert!(matches!(
        History::read_header(&v, file),
        Err(StateError::InvalidHeader)
    ));

    assert!(History::read_header(&good, file).is_ok());
}

#[test]
fn modified_document_is_outdated() {
    let mut h = History::new();
    h.record(insert_tx("x"), delete_tx(1), None, 5);
    let file = b"the document".to_vec();
    let bytes = full_bytes(&h, &file, 1, 9);

    assert!(History::is_valid(&bytes, &file));

    let mut grown = file.clone();
    grown.push(b'!');
    assert!(matches!(
        History::read_header(&bytes, &grown),
        Err(StateError::Outdated)
    ));
    assert!(!History::is_valid(&bytes, &grown));
    assert!(matches!(
        History::deserialize(&bytes, &grown),
        Err(StateError::Outdated)
    ));
}

#[test]
fn truncated_file_is_io() {
    let mut h = History::new();
    h.record(insert_tx("x"), delete_tx(1), None, 5);
    let file = b"doc";
    let bytes = full_bytes(&h, file, 1, 9);
    let cut = &bytes[..bytes.len() - 1];
    assert!(matches!(History::deserialize(cut, file), Err(StateError::Io)));
    assert!(matches!(History::read_header(&bytes[..3], file), Err(StateError::Io)));
}

#[test]
fn non_contiguous_history_is_invalid_data() {
    // Build a history whose second revision points at a parent that has
    // not been read yet when the file is scanned.
    let mut h = History::new();
    h.record(insert_tx("a"), delete_tx(1), None, 1);
    h.revisions[1].parent = 7;
    let file = b"doc";
    let bytes = full_bytes(&h, file, 1, 1);
    match History::deserialize(&bytes, file) {
        Err(StateError::InvalidData(msg)) => assert_eq!(msg, "non-contiguous history"),
        other => panic!("expected InvalidData, got {:?}", other.is_ok()),
    }
}

#[test]
fn missing_root_is_invalid_data() {
    // A first revision that is not the canonical empty root is rejected.
    let mut h = History::new();
    h.revisions[0].timestamp = 3;
    let file = b"doc";
    let bytes = full_bytes(&h, file, 0, 0);
    match History::deserialize(&bytes, file) {
        Err(StateError::InvalidData(msg)) => assert_eq!(msg, "Missing 0th revision"),
        other => panic!("expected InvalidData, got {:?}", other.is_ok()),
    }
}

#[test]
fn error_messages_are_stable() {
    assert_eq!(StateError::Outdated.message(), "Outdated file");
    assert_eq!(StateError::InvalidHeader.message(), "Invalid undofile header");
    assert_eq!(StateError::InvalidOffset.message(), "Invalid merge offset");
    assert_eq!(StateError::InvalidHash.message(), "invalid hash for undofile itself");
    assert_eq!(StateError::InvalidData("boom".to_owned()).message(), "boom");
}

#[test]
fn transaction_codec_round_trips() {
    let tx = Transaction {
        changes: ChangeSet {
            changes: vec![
                Operation::Retain(3),
                Operation::Insert("ab".to_owned()),
                Operation::Delete(1),
            ],
            len: 4,
            len_after: 5,
        },
        selection: Some(Selection {
            ranges: vec![Range { anchor: 2, head: 5, old_visual_position: Some((0, 5)) }],
            primary_index: 0,
        }),
    };
    let mut buf: Vec<u8> = Vec::new();
    tx.serialize(&mut buf);
    let (back, end) = Transaction::deserialize(&buf, 0).unwrap();
    assert_eq!(end, buf.len());
    assert!(back.equals(&tx));
}

#[test]
fn transaction_rejects_unknown_operation_tag() {
    // no selection, len 0, len_after 0, one operation with tag 9
    let buf = vec![0u8, 0, 0, 1, 9];
    assert!(matches!(Transaction::deserialize(&buf, 0), Err(StateError::Io)));
}

#[test]
fn selection_codec_round_trips() {
    let sel = Selection {
        ranges: vec![
            Range { anchor: 1, head: 2, old_visual_position: None },
            Range { anchor: 300, head: 4, old_visual_position: Some((7, 1000)) },
        ],
        primary_index: 1,
    };
    let mut buf: Vec<u8> = Vec::new();
    sel.serialize(&mut buf);
    let (back, end) = Selection::deserialize(&buf, 0).unwrap();
    assert_eq!(end, buf.len());
    assert!(back.equals(&sel));
}

#[test]
fn revision_codec_round_trips_without_last_child() {
    let rev = Revision {
        parent: 6,
        last_child: Some(9),
        transaction: insert_tx("zz"),
        inversion: delete_tx(2),
        timestamp: 1234567,
    };
    let mut buf: Vec<u8> = Vec::new();
    rev.serialize(&mut buf);
    let (back, end) = Revision::deserialize(&buf, 0).unwrap();
    assert_eq!(end, buf.len());
    assert_eq!(back.parent, 6);
    // the cached child pointer is not stored; it is rebuilt on load
    assert_eq!(back.last_child, None);
    assert!(back.transaction.equals(&rev.transaction));
    assert!(back.inversion.equals(&rev.inversion));
    assert_eq!(back.timestamp, 1234567);
}
