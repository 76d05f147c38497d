//! Binary serialization of histories.
//!
//! The on-disk layout, in order: magic tag, version byte, current revision
//! index, last-saved revision index, last-saved timestamp, content digest,
//! revision count, then the revisions. Every integer uses the variable-width
//! encoding of [`crate::combinators`]; strings are length-prefixed UTF-8.
//! The revision log is append-only: a save rewrites only the header block
//! and appends the revisions recorded since the previous save.

use vstd::prelude::*;
use vstd::utf8::*;

verus! {

use crate::combinators::{
    read_byte, read_presence, read_usize, read_varint, spec_parse_presence, spec_parse_u64,
    spec_parse_usize, spec_parse_varint, spec_presence, spec_varint, write_byte, write_presence,
    write_usize, write_varint,
};
use crate::hash::{digest_of, get_hash, Digest, HASH_DIGEST_LENGTH};
use crate::history::error::StateError;
use crate::history::{
    history_wf, is_root_shape, last_child_consistent, lemma_latest_child_parents_only, rev_views,
    History, HistoryView, Revision, RevisionView, spec_latest_child, spec_root_revision,
};
use crate::transaction::{
    ChangeSet, ChangeSetView, Operation, OperationView, Range, Selection, SelectionView,
    Transaction, TransactionView,
};

/// Parse of a variable-width integer that must fit in a `u32`.
pub open spec fn spec_parse_u32(s: Seq<u8>) -> Option<(u32, int)> {
    match spec_parse_varint(s) {
        Some(r) => if r.0 <= u32::MAX {
            Some((r.0 as u32, r.1))
        } else {
            None
        },
        None => None,
    }
}

/// Reads a variable-width integer that must fit in a `u32`.
fn read_u32(data: &[u8], pos: usize) -> (r: Result<(u32, usize), StateError>)
    requires
        pos <= data@.len(),
    ensures
        match r {
            Ok(v) => {
                &&& pos <= v.1 <= data@.len()
                &&& spec_parse_u32(data@.skip(pos as int)) == Some((v.0, v.1 - pos))
            },
            Err(e) => {
                &&& spec_parse_u32(data@.skip(pos as int)) is None
                &&& e is Io
            },
        },
{
    match read_varint(data, pos) {
        Err(e) => Err(e),
        Ok((v, end)) => {
            if v <= u32::MAX as u64 {
                Ok((v as u32, end))
            } else {
                Err(StateError::Io)
            }
        },
    }
}

/// Relies on `core::str::from_utf8`: decodes exactly the valid UTF-8 byte
/// sequences, to the characters they encode.
#[verifier::external_body]
fn bytes_to_string(v: &[u8]) -> (r: Option<String>)
    ensures
        match r {
            Some(s) => valid_utf8(v@) && s@ == decode_utf8(v@),
            None => !valid_utf8(v@),
        },
{
    match core::str::from_utf8(v) {
        Ok(s) => Some(s.to_owned()),
        Err(_) => None,
    }
}

/// Encoding of a string: byte count, then UTF-8 bytes.
pub open spec fn spec_enc_string(s: Seq<char>) -> Seq<u8> {
    spec_varint(encode_utf8(s).len()) + encode_utf8(s)
}

/// Parse of a string: byte count, then that many bytes of valid UTF-8.
pub open spec fn spec_parse_string(s: Seq<u8>) -> Option<(Seq<char>, int)> {
    match spec_parse_usize(s) {
        None => None,
        Some((n, k)) => if k + n <= s.len() && valid_utf8(s.subrange(k, k + n)) {
            Some((decode_utf8(s.subrange(k, k + n)), k + n))
        } else {
            None
        },
    }
}

/// Appends the encoding of `s`.
pub fn write_string(buf: &mut Vec<u8>, s: &str)
    ensures
        final(buf)@ == old(buf)@ + spec_enc_string(s@),
{
    let bytes = s.as_bytes();
    write_usize(buf, bytes.len());
    buf.extend_from_slice(bytes);
    assert(buf@ =~= old(buf)@ + spec_enc_string(s@));
}

/// Reads a length-prefixed UTF-8 string.
pub fn read_string(data: &[u8], pos: usize) -> (r: Result<(String, usize), StateError>)
    requires
        pos <= data@.len(),
    ensures
        match r {
            Ok(v) => {
                &&& pos <= v.1 <= data@.len()
                &&& spec_parse_string(data@.skip(pos as int)) matches Some(p) && p.0 == v.0@ && p.1
                    == v.1 - pos
            },
            Err(e) => {
                &&& spec_parse_string(data@.skip(pos as int)) is None
                &&& e is Io
            },
        },
{
    let ghost s = data@.skip(pos as int);
    let (n, p1) = match read_usize(data, pos) {
        Ok(v) => v,
        Err(e) => {
            return Err(e);
        },
    };
    if n > data.len() - p1 {
        return Err(StateError::Io);
    }
    let bytes = vstd::slice::slice_subrange(data, p1, p1 + n);
    assert(bytes@ =~= s.subrange(p1 - pos, p1 - pos + n));
    match bytes_to_string(bytes) {
        Some(v) => Ok((v, p1 + n)),
        None => Err(StateError::Io),
    }
}

/// Decoding a string inverts encoding it.
pub proof fn lemma_parse_string(s: Seq<char>, rest: Seq<u8>)
    requires
        encode_utf8(s).len() <= usize::MAX,
    ensures
        spec_parse_string(spec_enc_string(s) + rest) matches Some(p) && p.0 == s && p.1
            == spec_enc_string(s).len(),
{
    broadcast use encode_utf8_valid_utf8, encode_utf8_decode_utf8;

    let bytes = encode_utf8(s);
    let whole = spec_enc_string(s) + rest;
    crate::combinators::lemma_parse_varint(bytes.len(), bytes + rest);
    assert(whole =~= spec_varint(bytes.len()) + (bytes + rest));
    let k = spec_varint(bytes.len()).len() as int;
    assert(whole.subrange(k, k + bytes.len()) =~= bytes);
}

/// Encoding of an optional visual position: presence flag, then the two
/// coordinates.
pub open spec fn spec_enc_visual(v: Option<(u32, u32)>) -> Seq<u8> {
    match v {
        None => spec_presence(false),
        Some(p) => spec_presence(true) + spec_varint(p.0 as nat) + spec_varint(p.1 as nat),
    }
}

/// Parse of an optional visual position.
pub open spec fn spec_parse_visual(s: Seq<u8>) -> Option<(Option<(u32, u32)>, int)> {
    match spec_parse_presence(s) {
        None => None,
        Some((false, k)) => Some((None, k)),
        Some((true, k)) => match spec_parse_u32(s.skip(k)) {
            None => None,
            Some((a, k1)) => match spec_parse_u32(s.skip(k + k1)) {
                None => None,
                Some((b, k2)) => Some((Some((a, b)), k + k1 + k2)),
            },
        },
    }
}

/// Appends the encoding of an optional visual position.
pub fn write_visual(buf: &mut Vec<u8>, v: &Option<(u32, u32)>)
    ensures
        final(buf)@ == old(buf)@ + spec_enc_visual(*v),
{
    match v {
        None => {
            write_presence(buf, false);
        },
        Some(p) => {
            write_presence(buf, true);
            write_varint(buf, p.0 as u64);
            write_varint(buf, p.1 as u64);
            assert(buf@ =~= old(buf)@ + spec_enc_visual(*v));
        },
    }
}

/// Reads an optional visual position.
pub fn read_visual(data: &[u8], pos: usize) -> (r: Result<(Option<(u32, u32)>, usize), StateError>)
    requires
        pos <= data@.len(),
    ensures
        match r {
            Ok(v) => {
                &&& pos <= v.1 <= data@.len()
                &&& spec_parse_visual(data@.skip(pos as int)) == Some((v.0, v.1 - pos))
            },
            Err(e) => {
                &&& spec_parse_visual(data@.skip(pos as int)) is None
                &&& e is Io
            },
        },
{
    let ghost s = data@.skip(pos as int);
    let (present, p1) = match read_presence(data, pos) {
        Ok(v) => v,
        Err(e) => {
            return Err(e);
        },
    };
    if !present {
        return Ok((None, p1));
    }
    assert(s.skip(p1 - pos) =~= data@.skip(p1 as int));
    let (a, p2) = match read_u32(data, p1) {
        Ok(v) => v,
        Err(e) => {
            return Err(e);
        },
    };
    assert(s.skip(p2 - pos) =~= data@.skip(p2 as int));
    let (b, p3) = match read_u32(data, p2) {
        Ok(v) => v,
        Err(e) => {
            return Err(e);
        },
    };
    Ok((Some((a, b)), p3))
}

/// Decoding an optional visual position inverts encoding it.
pub proof fn lemma_parse_visual(v: Option<(u32, u32)>, rest: Seq<u8>)
    ensures
        spec_parse_visual(spec_enc_visual(v) + rest) == Some((v, spec_enc_visual(v).len() as int)),
{
    let whole = spec_enc_visual(v) + rest;
    match v {
        None => {
            assert(whole[0] == 0u8);
        },
        Some(p) => {
            assert(whole[0] == 1u8);
            let e1 = spec_varint(p.0 as nat);
            let e2 = spec_varint(p.1 as nat);
            crate::combinators::lemma_parse_varint(p.0 as nat, e2 + rest);
            crate::combinators::lemma_parse_varint(p.1 as nat, rest);
            assert(whole.skip(1) =~= e1 + (e2 + rest));
            assert(whole.skip(1 + e1.len() as int) =~= e2 + rest);
        },
    }
}

/// Encoding of one cursor range: anchor, head, optional visual position.
pub open spec fn spec_enc_range(r: Range) -> Seq<u8> {
    spec_varint(r.anchor as nat) + spec_varint(r.head as nat) + spec_enc_visual(
        r.old_visual_position,
    )
}

/// Parse of one cursor range.
pub open spec fn spec_parse_range(s: Seq<u8>) -> Option<(Range, int)> {
    match spec_parse_usize(s) {
        None => None,
        Some((anchor, k)) => match spec_parse_usize(s.skip(k)) {
            None => None,
            Some((head, k1)) => match spec_parse_visual(s.skip(k + k1)) {
                None => None,
                Some((v, k2)) => Some(
                    (Range { anchor, head, old_visual_position: v }, k + k1 + k2),
                ),
            },
        },
    }
}

/// Appends the encoding of one range.
pub fn write_range(buf: &mut Vec<u8>, r: &Range)
    ensures
        final(buf)@ == old(buf)@ + spec_enc_range(*r),
{
    write_usize(buf, r.anchor);
    write_usize(buf, r.head);
    write_visual(buf, &r.old_visual_position);
    assert(buf@ =~= old(buf)@ + spec_enc_range(*r));
}

/// Reads one range.
pub fn read_range(data: &[u8], pos: usize) -> (r: Result<(Range, usize), StateError>)
    requires
        pos <= data@.len(),
    ensures
        match r {
            Ok(v) => {
                &&& pos <= v.1 <= data@.len()
                &&& spec_parse_range(data@.skip(pos as int)) == Some((v.0, v.1 - pos))
            },
            Err(e) => {
                &&& spec_parse_range(data@.skip(pos as int)) is None
                &&& e is Io
            },
        },
{
    let ghost s = data@.skip(pos as int);
    let (anchor, p1) = match read_usize(data, pos) {
        Ok(v) => v,
        Err(e) => {
            return Err(e);
        },
    };
    assert(s.skip(p1 - pos) =~= data@.skip(p1 as int));
    let (head, p2) = match read_usize(data, p1) {
        Ok(v) => v,
        Err(e) => {
            return Err(e);
        },
    };
    assert(s.skip(p2 - pos) =~= data@.skip(p2 as int));
    let (v, p3) = match read_visual(data, p2) {
        Ok(v) => v,
        Err(e) => {
            return Err(e);
        },
    };
    Ok((Range { anchor, head, old_visual_position: v }, p3))
}

/// Decoding one range inverts encoding it.
pub proof fn lemma_parse_range(r: Range, rest: Seq<u8>)
    ensures
        spec_parse_range(spec_enc_range(r) + rest) == Some((r, spec_enc_range(r).len() as int)),
{
    let e1 = spec_varint(r.anchor as nat);
    let e2 = spec_varint(r.head as nat);
    let e3 = spec_enc_visual(r.old_visual_position);
    let whole = spec_enc_range(r) + rest;
    crate::combinators::lemma_parse_varint(r.anchor as nat, e2 + (e3 + rest));
    crate::combinators::lemma_parse_varint(r.head as nat, e3 + rest);
    lemma_parse_visual(r.old_visual_position, rest);
    assert(whole =~= e1 + (e2 + (e3 + rest)));
    assert(whole.skip(e1.len() as int) =~= e2 + (e3 + rest));
    assert(whole.skip(e1.len() + e2.len() as int) =~= e3 + rest);
}

/// Encoding of a list of ranges, without a count.
pub open spec fn spec_enc_ranges(rs: Seq<Range>) -> Seq<u8>
    decreases rs.len(),
{
    if rs.len() == 0 {
        Seq::empty()
    } else {
        spec_enc_range(rs[0]) + spec_enc_ranges(rs.skip(1))
    }
}

/// Appending one more range extends the encoding at its end.
pub proof fn lemma_enc_ranges_push(rs: Seq<Range>, r: Range)
    ensures
        spec_enc_ranges(rs.push(r)) == spec_enc_ranges(rs) + spec_enc_range(r),
    decreases rs.len(),
{
    if rs.len() == 0 {
        assert(rs.push(r)[0] == r);
        assert(rs.push(r).skip(1) =~= Seq::<Range>::empty());
        assert(spec_enc_ranges(rs.push(r)) == spec_enc_range(r) + spec_enc_ranges(
            rs.push(r).skip(1),
        ));
        assert(spec_enc_ranges(rs.push(r).skip(1)) == Seq::<u8>::empty());
        assert(spec_enc_ranges(rs) == Seq::<u8>::empty());
        assert(spec_enc_ranges(rs.push(r)) =~= spec_enc_ranges(rs) + spec_enc_range(r));
    } else {
        assert(rs.push(r).skip(1) =~= rs.skip(1).push(r));
        lemma_enc_ranges_push(rs.skip(1), r);
        assert(rs.push(r)[0] == rs[0]);
        assert(spec_enc_ranges(rs.push(r)) == spec_enc_range(rs[0]) + spec_enc_ranges(
            rs.skip(1).push(r),
        ));
        assert(spec_enc_ranges(rs.push(r)) =~= spec_enc_ranges(rs) + spec_enc_range(r));
    }
}

/// Parse of `count` consecutive ranges.
pub open spec fn spec_parse_ranges(s: Seq<u8>, count: nat) -> Option<(Seq<Range>, int)>
    decreases count,
{
    if count == 0 {
        Some((Seq::empty(), 0))
    } else {
        match spec_parse_range(s) {
            None => None,
            Some((r, k)) => match spec_parse_ranges(s.skip(k), (count - 1) as nat) {
                None => None,
                Some((rs, m)) => Some((seq![r] + rs, k + m)),
            },
        }
    }
}

/// Decoding a list of ranges inverts encoding it.
pub proof fn lemma_parse_ranges(rs: Seq<Range>, rest: Seq<u8>)
    ensures
        spec_parse_ranges(spec_enc_ranges(rs) + rest, rs.len()) matches Some(p) && p.0 == rs && p.1
            == spec_enc_ranges(rs).len(),
    decreases rs.len(),
{
    let whole = spec_enc_ranges(rs) + rest;
    if rs.len() == 0 {
        assert(whole =~= rest);
        assert(spec_parse_ranges(whole, 0) == Some((Seq::<Range>::empty(), 0int)));
    } else {
        let e0 = spec_enc_range(rs[0]);
        let tail = spec_enc_ranges(rs.skip(1));
        assert(whole =~= e0 + (tail + rest));
        lemma_parse_range(rs[0], tail + rest);
        lemma_parse_ranges(rs.skip(1), rest);
        assert(whole.skip(e0.len() as int) =~= tail + rest);
        assert(seq![rs[0]] + rs.skip(1) =~= rs);
    }
}


/// Encoding of one operation: a tag byte, then a count or a string.
pub open spec fn spec_enc_operation(o: OperationView) -> Seq<u8> {
    match o {
        OperationView::Retain(n) => seq![0u8] + spec_varint(n as nat),
        OperationView::Delete(n) => seq![1u8] + spec_varint(n as nat),
        OperationView::Insert(s) => seq![2u8] + spec_enc_string(s),
    }
}

/// Parse of one operation.
pub open spec fn spec_parse_operation(s: Seq<u8>) -> Option<(OperationView, int)> {
    if s.len() == 0 {
        None
    } else if s[0] == 0 {
        match spec_parse_usize(s.skip(1)) {
            None => None,
            Some((n, k)) => Some((OperationView::Retain(n), 1 + k)),
        }
    } else if s[0] == 1 {
        match spec_parse_usize(s.skip(1)) {
            None => None,
            Some((n, k)) => Some((OperationView::Delete(n), 1 + k)),
        }
    } else if s[0] == 2 {
        match spec_parse_string(s.skip(1)) {
            None => None,
            Some((t, k)) => Some((OperationView::Insert(t), 1 + k)),
        }
    } else {
        None
    }
}

/// Appends the encoding of one operation.
fn write_operation(buf: &mut Vec<u8>, op: &Operation)
    ensures
        final(buf)@ == old(buf)@ + spec_enc_operation(op@),
{
    match op {
        Operation::Retain(n) => {
            write_byte(buf, 0);
            write_usize(buf, *n);
        },
        Operation::Delete(n) => {
            write_byte(buf, 1);
            write_usize(buf, *n);
        },
        Operation::Insert(s) => {
            write_byte(buf, 2);
            write_string(buf, s.as_str());
        },
    }
    assert(buf@ =~= old(buf)@ + spec_enc_operation(op@));
}

/// Reads one operation; a tag byte no encoder produces is rejected.
fn read_operation(data: &[u8], pos: usize) -> (r: Result<(Operation, usize), StateError>)
    requires
        pos <= data@.len(),
    ensures
        match r {
            Ok(v) => {
                &&& pos <= v.1 <= data@.len()
                &&& spec_parse_operation(data@.skip(pos as int)) matches Some(p) && p.0 == v.0@
                    && p.1 == v.1 - pos
            },
            Err(e) => {
                &&& spec_parse_operation(data@.skip(pos as int)) is None
                &&& e is Io
            },
        },
{
    let ghost s = data@.skip(pos as int);
    let (tag, p1) = match read_byte(data, pos) {
        Ok(v) => v,
        Err(e) => {
            return Err(e);
        },
    };
    assert(s[0] == tag);
    assert(s.skip(1) =~= data@.skip(p1 as int));
    if tag == 0 {
        match read_usize(data, p1) {
            Ok((n, p2)) => Ok((Operation::Retain(n), p2)),
            Err(e) => Err(e),
        }
    } else if tag == 1 {
        match read_usize(data, p1) {
            Ok((n, p2)) => Ok((Operation::Delete(n), p2)),
            Err(e) => Err(e),
        }
    } else if tag == 2 {
        match read_string(data, p1) {
            Ok((t, p2)) => Ok((Operation::Insert(t), p2)),
            Err(e) => Err(e),
        }
    } else {
        Err(StateError::Io)
    }
}

/// A string short enough that its byte count fits the length prefix.
pub open spec fn spec_string_serializable(s: Seq<char>) -> bool {
    encode_utf8(s).len() <= usize::MAX
}

/// An operation whose encoding round-trips: inserted text has a
/// representable byte count.
pub open spec fn spec_operation_serializable(o: OperationView) -> bool {
    match o {
        OperationView::Insert(s) => spec_string_serializable(s),
        _ => true,
    }
}

/// Decoding one operation inverts encoding it.
pub proof fn lemma_parse_operation(o: OperationView, rest: Seq<u8>)
    requires
        spec_operation_serializable(o),
    ensures
        spec_parse_operation(spec_enc_operation(o) + rest) matches Some(p) && p.0 == o && p.1
            == spec_enc_operation(o).len(),
{
    let whole = spec_enc_operation(o) + rest;
    match o {
        OperationView::Retain(n) => {
            assert(whole[0] == 0u8);
            crate::combinators::lemma_parse_varint(n as nat, rest);
            assert(whole.skip(1) =~= spec_varint(n as nat) + rest);
        },
        OperationView::Delete(n) => {
            assert(whole[0] == 1u8);
            crate::combinators::lemma_parse_varint(n as nat, rest);
            assert(whole.skip(1) =~= spec_varint(n as nat) + rest);
        },
        OperationView::Insert(t) => {
            assert(whole[0] == 2u8);
            lemma_parse_string(t, rest);
            assert(whole.skip(1) =~= spec_enc_string(t) + rest);
        },
    }
}

/// Encoding of a list of operations, without a count.
pub open spec fn spec_enc_operations(ops: Seq<OperationView>) -> Seq<u8>
    decreases ops.len(),
{
    if ops.len() == 0 {
        Seq::empty()
    } else {
        spec_enc_operation(ops[0]) + spec_enc_operations(ops.skip(1))
    }
}

/// Appending one more operation extends the encoding at its end.
pub proof fn lemma_enc_operations_push(ops: Seq<OperationView>, o: OperationView)
    ensures
        spec_enc_operations(ops.push(o)) == spec_enc_operations(ops) + spec_enc_operation(o),
    decreases ops.len(),
{
    if ops.len() == 0 {
        assert(ops.push(o)[0] == o);
        assert(ops.push(o).skip(1) =~= Seq::<OperationView>::empty());
        assert(spec_enc_operations(ops.push(o)) == spec_enc_operation(o) + spec_enc_operations(
            ops.push(o).skip(1),
        ));
        assert(spec_enc_operations(ops.push(o).skip(1)) == Seq::<u8>::empty());
        assert(spec_enc_operations(ops) == Seq::<u8>::empty());
        assert(spec_enc_operations(ops.push(o)) =~= spec_enc_operations(ops) + spec_enc_operation(
            o,
        ));
    } else {
        assert(ops.push(o).skip(1) =~= ops.skip(1).push(o));
        lemma_enc_operations_push(ops.skip(1), o);
        assert(ops.push(o)[0] == ops[0]);
        assert(spec_enc_operations(ops.push(o)) == spec_enc_operation(ops[0])
            + spec_enc_operations(ops.skip(1).push(o)));
        assert(spec_enc_operations(ops.push(o)) =~= spec_enc_operations(ops) + spec_enc_operation(
            o,
        ));
    }
}

/// Parse of `count` consecutive operations.
pub open spec fn spec_parse_operations(s: Seq<u8>, count: nat) -> Option<
    (Seq<OperationView>, int),
>
    decreases count,
{
    if count == 0 {
        Some((Seq::empty(), 0))
    } else {
        match spec_parse_operation(s) {
            None => None,
            Some((o, k)) => match spec_parse_operations(s.skip(k), (count - 1) as nat) {
                None => None,
                Some((os, m)) => Some((seq![o] + os, k + m)),
            },
        }
    }
}

/// A list of operations whose encoding round-trips.
pub open spec fn spec_operations_serializable(ops: Seq<OperationView>) -> bool {
    &&& ops.len() <= usize::MAX
    &&& forall|i: int| 0 <= i < ops.len() ==> spec_operation_serializable(#[trigger] ops[i])
}

/// Decoding a list of operations inverts encoding it.
pub proof fn lemma_parse_operations(ops: Seq<OperationView>, rest: Seq<u8>)
    requires
        forall|i: int| 0 <= i < ops.len() ==> spec_operation_serializable(#[trigger] ops[i]),
    ensures
        spec_parse_operations(spec_enc_operations(ops) + rest, ops.len()) matches Some(p) && p.0
            == ops && p.1 == spec_enc_operations(ops).len(),
    decreases ops.len(),
{
    let whole = spec_enc_operations(ops) + rest;
    if ops.len() == 0 {
        assert(whole =~= rest);
        assert(spec_parse_operations(whole, 0) == Some((Seq::<OperationView>::empty(), 0int)));
    } else {
        let e0 = spec_enc_operation(ops[0]);
        let tail = spec_enc_operations(ops.skip(1));
        assert(whole =~= e0 + (tail + rest));
        lemma_parse_operation(ops[0], tail + rest);
        lemma_parse_operations(ops.skip(1), rest);
        assert(whole.skip(e0.len() as int) =~= tail + rest);
        assert(seq![ops[0]] + ops.skip(1) =~= ops);
    }
}

/// Encoding of a selection: primary index, range count, then the ranges.
pub open spec fn spec_enc_selection(sv: SelectionView) -> Seq<u8> {
    spec_varint(sv.primary_index as nat) + spec_varint(sv.ranges.len()) + spec_enc_ranges(
        sv.ranges,
    )
}

/// Parse of a selection.
pub open spec fn spec_parse_selection(s: Seq<u8>) -> Option<(SelectionView, int)> {
    match spec_parse_usize(s) {
        None => None,
        Some((primary, k)) => match spec_parse_usize(s.skip(k)) {
            None => None,
            Some((count, k1)) => match spec_parse_ranges(s.skip(k + k1), count as nat) {
                None => None,
                Some((rs, k2)) => Some(
                    (SelectionView { ranges: rs, primary_index: primary }, k + k1 + k2),
                ),
            },
        },
    }
}

/// A selection whose encoding round-trips: the range count fits the prefix.
pub open spec fn spec_selection_serializable(sv: SelectionView) -> bool {
    sv.ranges.len() <= usize::MAX
}

/// Decoding a selection inverts encoding it.
pub proof fn lemma_parse_selection(sv: SelectionView, rest: Seq<u8>)
    requires
        spec_selection_serializable(sv),
    ensures
        spec_parse_selection(spec_enc_selection(sv) + rest) matches Some(p) && p.0 == sv && p.1
            == spec_enc_selection(sv).len(),
{
    let e1 = spec_varint(sv.primary_index as nat);
    let e2 = spec_varint(sv.ranges.len());
    let e3 = spec_enc_ranges(sv.ranges);
    let whole = spec_enc_selection(sv) + rest;
    crate::combinators::lemma_parse_varint(sv.primary_index as nat, e2 + (e3 + rest));
    crate::combinators::lemma_parse_varint(sv.ranges.len(), e3 + rest);
    lemma_parse_ranges(sv.ranges, rest);
    assert(whole =~= e1 + (e2 + (e3 + rest)));
    assert(whole.skip(e1.len() as int) =~= e2 + (e3 + rest));
    assert(whole.skip(e1.len() + e2.len() as int) =~= e3 + rest);
    assert(sv =~= SelectionView { ranges: sv.ranges, primary_index: sv.primary_index });
}


impl Selection {
    /// Appends this selection's encoding to `buf`.
    #[verifier::loop_isolation(false)]
    pub fn serialize(&self, buf: &mut Vec<u8>)
        ensures
            final(buf)@ == old(buf)@ + spec_enc_selection(self@),
    {
        write_usize(buf, self.primary_index);
        write_usize(buf, self.ranges.len());
        let ghost head = old(buf)@ + spec_varint(self.primary_index as nat) + spec_varint(
            self.ranges@.len(),
        );
        assert(buf@ =~= head + spec_enc_ranges(self.ranges@.take(0)));
        let n = self.ranges.len();
        let mut i: usize = 0;
        while i < n
            invariant
                0 <= i <= n,
                n == self.ranges@.len(),
                buf@ == head + spec_enc_ranges(self.ranges@.take(i as int)),
            decreases n - i,
        {
            write_range(buf, &self.ranges[i]);
            proof {
                lemma_enc_ranges_push(self.ranges@.take(i as int), self.ranges@[i as int]);
                assert(self.ranges@.take(i + 1) =~= self.ranges@.take(i as int).push(
                    self.ranges@[i as int],
                ));
                assert(buf@ =~= head + spec_enc_ranges(self.ranges@.take(i + 1)));
            }
            i += 1;
        }
        assert(self.ranges@.take(n as int) =~= self.ranges@);
        assert(buf@ =~= old(buf)@ + spec_enc_selection(self@));
    }

    /// Reads a selection.
    #[verifier::loop_isolation(false)]
    #[verifier::rlimit(50)]
    pub fn deserialize(data: &[u8], pos: usize) -> (r: Result<(Selection, usize), StateError>)
        requires
            pos <= data@.len(),
        ensures
            match r {
                Ok(v) => {
                    &&& pos <= v.1 <= data@.len()
                    &&& spec_parse_selection(data@.skip(pos as int)) matches Some(p) && p.0 == v.0@
                        && p.1 == v.1 - pos
                },
                Err(e) => {
                    &&& spec_parse_selection(data@.skip(pos as int)) is None
                    &&& e is Io
                },
            },
    {
        let ghost s = data@.skip(pos as int);
        let (primary, p1) = match read_usize(data, pos) {
            Ok(v) => v,
            Err(e) => {
                return Err(e);
            },
        };
        assert(s.skip(p1 - pos) =~= data@.skip(p1 as int));
        let (count, p2) = match read_usize(data, p1) {
            Ok(v) => v,
            Err(e) => {
                return Err(e);
            },
        };
        assert(s.skip(p2 - pos) =~= data@.skip(p2 as int));
        let mut ranges: Vec<Range> = Vec::new();
        let mut cur = p2;
        let mut i: usize = 0;
        while i < count
            invariant
                0 <= i <= count,
                pos <= p2 <= cur <= data@.len(),
                ranges@.len() == i,
                ({
                    let full = spec_parse_ranges(data@.skip(p2 as int), count as nat);
                    let rem = spec_parse_ranges(data@.skip(cur as int), (count - i) as nat);
                    match rem {
                        None => full is None,
                        Some(q) => full == Some((ranges@ + q.0, (cur - p2) + q.1)),
                    }
                }),
            decreases count - i,
        {
            let (rg, nxt) = match read_range(data, cur) {
                Ok(v) => v,
                Err(e) => {
                    return Err(e);
                },
            };
            proof {
                assert(data@.skip(cur as int).skip(nxt - cur) =~= data@.skip(nxt as int));
            }
            ranges.push(rg);
            proof {
                let rem2 = spec_parse_ranges(data@.skip(nxt as int), (count - i - 1) as nat);
                match rem2 {
                    None => {},
                    Some(q2) => {
                        assert(ranges@ + q2.0 =~= ranges@.drop_last() + (seq![rg] + q2.0));
                    },
                }
            }
            cur = nxt;
            i += 1;
        }
        let sel = Selection { ranges, primary_index: primary };
        assert(ranges@ + Seq::<Range>::empty() =~= ranges@);
        Ok((sel, cur))
    }
}

/// Encoding of an optional selection: presence flag, then the selection.
pub open spec fn spec_enc_option_selection(o: Option<SelectionView>) -> Seq<u8> {
    match o {
        None => spec_presence(false),
        Some(sv) => spec_presence(true) + spec_enc_selection(sv),
    }
}

/// Parse of an optional selection.
pub open spec fn spec_parse_option_selection(s: Seq<u8>) -> Option<
    (Option<SelectionView>, int),
> {
    match spec_parse_presence(s) {
        None => None,
        Some((false, k)) => Some((None, k)),
        Some((true, k)) => match spec_parse_selection(s.skip(k)) {
            None => None,
            Some((sv, k1)) => Some((Some(sv), k + k1)),
        },
    }
}

/// Appends the encoding of an optional selection.
fn write_option_selection(buf: &mut Vec<u8>, o: &Option<Selection>)
    ensures
        final(buf)@ == old(buf)@ + spec_enc_option_selection(
            match o {
                Some(sv) => Some(sv@),
                None => None,
            },
        ),
{
    match o {
        None => {
            write_presence(buf, false);
        },
        Some(sv) => {
            write_presence(buf, true);
            sv.serialize(buf);
            assert(buf@ =~= old(buf)@ + spec_enc_option_selection(Some(sv@)));
        },
    }
}

/// Reads an optional selection.
fn read_option_selection(data: &[u8], pos: usize) -> (r: Result<
    (Option<Selection>, usize),
    StateError,
>)
    requires
        pos <= data@.len(),
    ensures
        match r {
            Ok(v) => {
                &&& pos <= v.1 <= data@.len()
                &&& spec_parse_option_selection(data@.skip(pos as int)) matches Some(p) && p.0
                    == (match v.0 {
                    Some(sv) => Some(sv@),
                    None => None,
                }) && p.1 == v.1 - pos
            },
            Err(e) => {
                &&& spec_parse_option_selection(data@.skip(pos as int)) is None
                &&& e is Io
            },
        },
{
    let ghost s = data@.skip(pos as int);
    let (present, p1) = match read_presence(data, pos) {
        Ok(v) => v,
        Err(e) => {
            return Err(e);
        },
    };
    if !present {
        return Ok((None, p1));
    }
    assert(s.skip(p1 - pos) =~= data@.skip(p1 as int));
    match Selection::deserialize(data, p1) {
        Ok((sv, p2)) => Ok((Some(sv), p2)),
        Err(e) => Err(e),
    }
}


/// Decoding an optional selection inverts encoding it.
pub proof fn lemma_parse_option_selection(o: Option<SelectionView>, rest: Seq<u8>)
    requires
        match o {
            Some(sv) => spec_selection_serializable(sv),
            None => true,
        },
    ensures
        spec_parse_option_selection(spec_enc_option_selection(o) + rest) matches Some(p) && p.0
            == o && p.1 == spec_enc_option_selection(o).len(),
{
    let whole = spec_enc_option_selection(o) + rest;
    match o {
        None => {
            assert(whole[0] == 0u8);
        },
        Some(sv) => {
            assert(whole[0] == 1u8);
            lemma_parse_selection(sv, rest);
            assert(whole.skip(1) =~= spec_enc_selection(sv) + rest);
        },
    }
}

/// Encoding of a transaction: optional selection, input length, output
/// length, operation count, then the operations.
pub open spec fn spec_enc_transaction(t: TransactionView) -> Seq<u8> {
    spec_enc_option_selection(t.selection) + spec_varint(t.changes.len as nat) + spec_varint(
        t.changes.len_after as nat,
    ) + spec_varint(t.changes.changes.len()) + spec_enc_operations(t.changes.changes)
}

/// Parse of a transaction.
pub open spec fn spec_parse_transaction(s: Seq<u8>) -> Option<(TransactionView, int)> {
    match spec_parse_option_selection(s) {
        None => None,
        Some((sel, k)) => match spec_parse_usize(s.skip(k)) {
            None => None,
            Some((len, k1)) => match spec_parse_usize(s.skip(k + k1)) {
                None => None,
                Some((len_after, k2)) => match spec_parse_usize(s.skip(k + k1 + k2)) {
                    None => None,
                    Some((count, k3)) => match spec_parse_operations(
                        s.skip(k + k1 + k2 + k3),
                        count as nat,
                    ) {
                        None => None,
                        Some((ops, k4)) => Some(
                            (
                                TransactionView {
                                    changes: ChangeSetView { changes: ops, len, len_after },
                                    selection: sel,
                                },
                                k + k1 + k2 + k3 + k4,
                            ),
                        ),
                    },
                },
            },
        },
    }
}

/// A transaction whose encoding round-trips.
pub open spec fn spec_transaction_serializable(t: TransactionView) -> bool {
    &&& match t.selection {
        Some(sv) => spec_selection_serializable(sv),
        None => true,
    }
    &&& spec_operations_serializable(t.changes.changes)
}

/// Decoding a transaction inverts encoding it.
#[verifier::rlimit(100)]
pub proof fn lemma_parse_transaction(t: TransactionView, rest: Seq<u8>)
    requires
        spec_transaction_serializable(t),
    ensures
        spec_parse_transaction(spec_enc_transaction(t) + rest) matches Some(p) && p.0 == t && p.1
            == spec_enc_transaction(t).len(),
{
    let e1 = spec_enc_option_selection(t.selection);
    let e2 = spec_varint(t.changes.len as nat);
    let e3 = spec_varint(t.changes.len_after as nat);
    let e4 = spec_varint(t.changes.changes.len());
    let e5 = spec_enc_operations(t.changes.changes);
    let whole = spec_enc_transaction(t) + rest;
    lemma_parse_option_selection(t.selection, e2 + (e3 + (e4 + (e5 + rest))));
    crate::combinators::lemma_parse_varint(t.changes.len as nat, e3 + (e4 + (e5 + rest)));
    crate::combinators::lemma_parse_varint(t.changes.len_after as nat, e4 + (e5 + rest));
    crate::combinators::lemma_parse_varint(t.changes.changes.len(), e5 + rest);
    lemma_parse_operations(t.changes.changes, rest);
    assert(whole =~= e1 + (e2 + (e3 + (e4 + (e5 + rest)))));
    assert(whole.skip(e1.len() as int) =~= e2 + (e3 + (e4 + (e5 + rest))));
    assert(whole.skip(e1.len() + e2.len() as int) =~= e3 + (e4 + (e5 + rest)));
    assert(whole.skip(e1.len() + e2.len() + e3.len() as int) =~= e4 + (e5 + rest));
    assert(whole.skip(e1.len() + e2.len() + e3.len() + e4.len() as int) =~= e5 + rest);
    assert(t =~= TransactionView {
        changes: ChangeSetView {
            changes: t.changes.changes,
            len: t.changes.len,
            len_after: t.changes.len_after,
        },
        selection: t.selection,
    });
}

impl Transaction {
    /// Appends this transaction's encoding to `buf`.
    #[verifier::loop_isolation(false)]
    pub fn serialize(&self, buf: &mut Vec<u8>)
        ensures
            final(buf)@ == old(buf)@ + spec_enc_transaction(self@),
    {
        write_option_selection(buf, &self.selection);
        write_usize(buf, self.changes.len);
        write_usize(buf, self.changes.len_after);
        write_usize(buf, self.changes.changes.len());
        let ghost head = buf@;
        assert(buf@ =~= head + spec_enc_operations(self@.changes.changes.take(0)));
        let n = self.changes.changes.len();
        let mut i: usize = 0;
        while i < n
            invariant
                0 <= i <= n,
                n == self.changes.changes@.len(),
                buf@ == head + spec_enc_operations(self@.changes.changes.take(i as int)),
            decreases n - i,
        {
            write_operation(buf, &self.changes.changes[i]);
            proof {
                lemma_enc_operations_push(
                    self@.changes.changes.take(i as int),
                    self@.changes.changes[i as int],
                );
                assert(self@.changes.changes.take(i + 1) =~= self@.changes.changes.take(
                    i as int,
                ).push(self@.changes.changes[i as int]));
                assert(self.changes.changes@[i as int]@ == self@.changes.changes[i as int]);
                assert(buf@ =~= head + spec_enc_operations(self@.changes.changes.take(i + 1)));
            }
            i += 1;
        }
        assert(self@.changes.changes.take(n as int) =~= self@.changes.changes);
        assert(buf@ =~= old(buf)@ + spec_enc_transaction(self@));
    }

    /// Reads a transaction.
    #[verifier::loop_isolation(false)]
    #[verifier::rlimit(100)]
    pub fn deserialize(data: &[u8], pos: usize) -> (r: Result<(Transaction, usize), StateError>)
        requires
            pos <= data@.len(),
        ensures
            match r {
                Ok(v) => {
                    &&& pos <= v.1 <= data@.len()
                    &&& spec_parse_transaction(data@.skip(pos as int)) matches Some(p) && p.0
                        == v.0@ && p.1 == v.1 - pos
                },
                Err(e) => {
                    &&& spec_parse_transaction(data@.skip(pos as int)) is None
                    &&& e is Io
                },
            },
    {
        let ghost s = data@.skip(pos as int);
        let (selection, p1) = match read_option_selection(data, pos) {
            Ok(v) => v,
            Err(e) => {
                return Err(e);
            },
        };
        assert(s.skip(p1 - pos) =~= data@.skip(p1 as int));
        let (len, p2) = match read_usize(data, p1) {
            Ok(v) => v,
            Err(e) => {
                return Err(e);
            },
        };
        assert(s.skip(p2 - pos) =~= data@.skip(p2 as int));
        let (len_after, p3) = match read_usize(data, p2) {
            Ok(v) => v,
            Err(e) => {
                return Err(e);
            },
        };
        assert(s.skip(p3 - pos) =~= data@.skip(p3 as int));
        let (count, p4) = match read_usize(data, p3) {
            Ok(v) => v,
            Err(e) => {
                return Err(e);
            },
        };
        assert(s.skip(p4 - pos) =~= data@.skip(p4 as int));
        let (ops, cur) = match read_operations(data, p4, count) {
            Ok(v) => v,
            Err(e) => {
                return Err(e);
            },
        };
        let t = Transaction {
            changes: ChangeSet { changes: ops, len, len_after },
            selection,
        };
        proof {
            assert(t@.changes.changes =~= Seq::new(ops@.len(), |j: int| ops@[j]@));
        }
        Ok((t, cur))
    }
}

/// Reads `count` consecutive operations.
#[verifier::loop_isolation(false)]
#[verifier::rlimit(50)]
fn read_operations(data: &[u8], pos: usize, count: usize) -> (r: Result<
    (Vec<Operation>, usize),
    StateError,
>)
    requires
        pos <= data@.len(),
    ensures
        match r {
            Ok(v) => {
                &&& pos <= v.1 <= data@.len()
                &&& spec_parse_operations(data@.skip(pos as int), count as nat) matches Some(p)
                    && p.0 == Seq::new(v.0@.len(), |j: int| v.0@[j]@) && p.1 == v.1 - pos
            },
            Err(e) => {
                &&& spec_parse_operations(data@.skip(pos as int), count as nat) is None
                &&& e is Io
            },
        },
{
    let mut ops: Vec<Operation> = Vec::new();
    let mut cur = pos;
    let mut i: usize = 0;
    let ghost ops_parse = spec_parse_operations(data@.skip(pos as int), count as nat);
    while i < count
        invariant
            0 <= i <= count,
            pos <= cur <= data@.len(),
            ops@.len() == i,
            ops_parse == spec_parse_operations(data@.skip(pos as int), count as nat),
            ({
                let rem = spec_parse_operations(data@.skip(cur as int), (count - i) as nat);
                match rem {
                    None => ops_parse is None,
                    Some(q) => ops_parse == Some(
                        (Seq::new(ops@.len(), |j: int| ops@[j]@) + q.0, (cur - pos) + q.1),
                    ),
                }
            }),
        decreases count - i,
    {
        let (op, nxt) = match read_operation(data, cur) {
            Ok(v) => v,
            Err(e) => {
                return Err(e);
            },
        };
        proof {
            assert(data@.skip(cur as int).skip(nxt - cur) =~= data@.skip(nxt as int));
        }
        ops.push(op);
        proof {
            let rem2 = spec_parse_operations(data@.skip(nxt as int), (count - i - 1) as nat);
            match rem2 {
                None => {},
                Some(q2) => {
                    assert(Seq::new(ops@.len(), |j: int| ops@[j]@) + q2.0 =~= Seq::new(
                        (ops@.len() - 1) as nat,
                        |j: int| ops@[j]@,
                    ) + (seq![op@] + q2.0));
                },
            }
        }
        cur = nxt;
        i += 1;
    }
    proof {
        assert(Seq::new(ops@.len(), |j: int| ops@[j]@) + Seq::<OperationView>::empty() =~= Seq::new(
            ops@.len(),
            |j: int| ops@[j]@,
        ));
    }
    Ok((ops, cur))
}


/// Encoding of a revision: parent index, forward transaction, inverse
/// transaction, timestamp. The cached `last_child` is not stored; it is
/// rebuilt when the file is read.
pub open spec fn spec_enc_revision(r: RevisionView) -> Seq<u8> {
    spec_varint(r.parent as nat) + spec_enc_transaction(r.transaction) + spec_enc_transaction(
        r.inversion,
    ) + spec_varint(r.timestamp as nat)
}

/// Parse of a revision; its `last_child` starts out absent.
pub open spec fn spec_parse_revision(s: Seq<u8>) -> Option<(RevisionView, int)> {
    match spec_parse_usize(s) {
        None => None,
        Some((parent, k)) => match spec_parse_transaction(s.skip(k)) {
            None => None,
            Some((t, k1)) => match spec_parse_transaction(s.skip(k + k1)) {
                None => None,
                Some((inv, k2)) => match spec_parse_u64(s.skip(k + k1 + k2)) {
                    None => None,
                    Some((ts, k3)) => Some(
                        (
                            RevisionView {
                                parent,
                                last_child: None,
                                transaction: t,
                                inversion: inv,
                                timestamp: ts,
                            },
                            k + k1 + k2 + k3,
                        ),
                    ),
                },
            },
        },
    }
}

/// A revision whose encoding round-trips.
pub open spec fn spec_revision_serializable(r: RevisionView) -> bool {
    spec_transaction_serializable(r.transaction) && spec_transaction_serializable(r.inversion)
}

/// Decoding a revision inverts encoding it, up to the unstored
/// `last_child`.
#[verifier::rlimit(100)]
pub proof fn lemma_parse_revision(r: RevisionView, rest: Seq<u8>)
    requires
        spec_revision_serializable(r),
    ensures
        spec_parse_revision(spec_enc_revision(r) + rest) matches Some(p) && p.0 == (RevisionView {
            last_child: None,
            ..r
        }) && p.1 == spec_enc_revision(r).len(),
{
    let e1 = spec_varint(r.parent as nat);
    let e2 = spec_enc_transaction(r.transaction);
    let e3 = spec_enc_transaction(r.inversion);
    let e4 = spec_varint(r.timestamp as nat);
    let whole = spec_enc_revision(r) + rest;
    crate::combinators::lemma_parse_varint(r.parent as nat, e2 + (e3 + (e4 + rest)));
    lemma_parse_transaction(r.transaction, e3 + (e4 + rest));
    lemma_parse_transaction(r.inversion, e4 + rest);
    crate::combinators::lemma_parse_varint(r.timestamp as nat, rest);
    assert(whole =~= e1 + (e2 + (e3 + (e4 + rest))));
    assert(whole.skip(e1.len() as int) =~= e2 + (e3 + (e4 + rest)));
    assert(whole.skip(e1.len() + e2.len() as int) =~= e3 + (e4 + rest));
    assert(whole.skip(e1.len() + e2.len() + e3.len() as int) =~= e4 + rest);
}

impl Revision {
    /// Appends this revision's encoding to `buf`.
    pub fn serialize(&self, buf: &mut Vec<u8>)
        ensures
            final(buf)@ == old(buf)@ + spec_enc_revision(self@),
    {
        write_usize(buf, self.parent);
        self.transaction.serialize(buf);
        self.inversion.serialize(buf);
        write_varint(buf, self.timestamp);
        assert(buf@ =~= old(buf)@ + spec_enc_revision(self@));
    }

    /// Reads a revision; its `last_child` starts out absent.
    #[verifier::rlimit(100)]
    pub fn deserialize(data: &[u8], pos: usize) -> (r: Result<(Revision, usize), StateError>)
        requires
            pos <= data@.len(),
        ensures
            match r {
                Ok(v) => {
                    &&& pos <= v.1 <= data@.len()
                    &&& spec_parse_revision(data@.skip(pos as int)) matches Some(p) && p.0 == v.0@
                        && p.1 == v.1 - pos
                },
                Err(e) => {
                    &&& spec_parse_revision(data@.skip(pos as int)) is None
                    &&& e is Io
                },
            },
    {
        let ghost s = data@.skip(pos as int);
        let (parent, p1) = match read_usize(data, pos) {
            Ok(v) => v,
            Err(e) => {
                return Err(e);
            },
        };
        assert(s.skip(p1 - pos) =~= data@.skip(p1 as int));
        let (transaction, p2) = match Transaction::deserialize(data, p1) {
            Ok(v) => v,
            Err(e) => {
                return Err(e);
            },
        };
        assert(s.skip(p2 - pos) =~= data@.skip(p2 as int));
        let (inversion, p3) = match Transaction::deserialize(data, p2) {
            Ok(v) => v,
            Err(e) => {
                return Err(e);
            },
        };
        assert(s.skip(p3 - pos) =~= data@.skip(p3 as int));
        let (timestamp, p4) = match read_varint(data, p3) {
            Ok(v) => v,
            Err(e) => {
                return Err(e);
            },
        };
        let rev = Revision { parent, last_child: None, transaction, inversion, timestamp };
        assert(rev@ =~= (match spec_parse_revision(s) {
            Some(p) => p.0,
            None => rev@,
        }));
        Ok((rev, p4))
    }
}

/// Encoding of a list of revisions, without a count.
pub open spec fn spec_enc_revisions(rs: Seq<RevisionView>) -> Seq<u8>
    decreases rs.len(),
{
    if rs.len() == 0 {
        Seq::empty()
    } else {
        spec_enc_revision(rs[0]) + spec_enc_revisions(rs.skip(1))
    }
}

/// Appending one more revision extends the encoding at its end.
pub proof fn lemma_enc_revisions_push(rs: Seq<RevisionView>, r: RevisionView)
    ensures
        spec_enc_revisions(rs.push(r)) == spec_enc_revisions(rs) + spec_enc_revision(r),
    decreases rs.len(),
{
    if rs.len() == 0 {
        assert(rs.push(r)[0] == r);
        assert(rs.push(r).skip(1) =~= Seq::<RevisionView>::empty());
        assert(spec_enc_revisions(rs.push(r)) == spec_enc_revision(r) + spec_enc_revisions(
            rs.push(r).skip(1),
        ));
        assert(spec_enc_revisions(rs.push(r).skip(1)) == Seq::<u8>::empty());
        assert(spec_enc_revisions(rs) == Seq::<u8>::empty());
        assert(spec_enc_revisions(rs.push(r)) =~= spec_enc_revisions(rs) + spec_enc_revision(r));
    } else {
        assert(rs.push(r).skip(1) =~= rs.skip(1).push(r));
        lemma_enc_revisions_push(rs.skip(1), r);
        assert(rs.push(r)[0] == rs[0]);
        assert(spec_enc_revisions(rs.push(r)) == spec_enc_revision(rs[0]) + spec_enc_revisions(
            rs.skip(1).push(r),
        ));
        assert(spec_enc_revisions(rs.push(r)) =~= spec_enc_revisions(rs) + spec_enc_revision(r));
    }
}

/// The five magic bytes spelling the tag at the start of every undo file.
pub open spec fn spec_magic() -> Seq<u8> {
    seq![72u8, 101u8, 108u8, 105u8, 120u8]
}

/// The one format version this library reads and writes.
pub const UNDO_FILE_VERSION: u8 = 1;

/// Appends the magic tag.
fn write_magic(buf: &mut Vec<u8>)
    ensures
        final(buf)@ == old(buf)@ + spec_magic(),
{
    write_byte(buf, 72);
    write_byte(buf, 101);
    write_byte(buf, 108);
    write_byte(buf, 105);
    write_byte(buf, 120);
    assert(buf@ =~= old(buf)@ + spec_magic());
}

/// Encoding of the header: magic tag, version byte, current revision index,
/// last-saved revision index, last-saved timestamp, content digest.
pub open spec fn spec_enc_header(
    current: usize,
    last_saved: usize,
    timestamp: u64,
    digest: Seq<u8>,
) -> Seq<u8> {
    spec_magic() + seq![UNDO_FILE_VERSION] + spec_varint(current as nat) + spec_varint(
        last_saved as nat,
    ) + spec_varint(timestamp as nat) + digest
}

/// The header fields read and validated before any revision.
#[derive(Clone, Copy)]
pub struct UndoHeader {
    /// Index of the revision that was current when the file was written.
    pub current: usize,
    /// Index of the revision recorded as last saved.
    pub last_saved_revision: usize,
    /// When the file was last saved.
    pub timestamp: u64,
}

/// The first six bytes carry the expected magic tag and version.
pub open spec fn spec_magic_version_ok(s: Seq<u8>) -> bool {
    s.len() >= 6 && s.subrange(0, 5) == spec_magic() && s[5] == UNDO_FILE_VERSION
}

/// Parse of the header fields after the magic tag and version: current
/// index, last-saved index, timestamp, digest. The returned offset counts
/// from the start of these fields.
pub open spec fn spec_parse_header_fields(s: Seq<u8>) -> Option<
    ((usize, usize, u64, Seq<u8>), int),
> {
    match spec_parse_usize(s) {
        None => None,
        Some((current, k)) => match spec_parse_usize(s.skip(k)) {
            None => None,
            Some((last_saved, k1)) => match spec_parse_u64(s.skip(k + k1)) {
                None => None,
                Some((ts, k2)) => if k + k1 + k2 + HASH_DIGEST_LENGTH <= s.len() {
                    Some(
                        (
                            (
                                current,
                                last_saved,
                                ts,
                                s.subrange(k + k1 + k2, k + k1 + k2 + HASH_DIGEST_LENGTH),
                            ),
                            k + k1 + k2 + HASH_DIGEST_LENGTH,
                        ),
                    )
                } else {
                    None
                },
            },
        },
    }
}

/// Byte-for-byte equality of two slices.
pub(crate) fn eq_bytes(a: &[u8], b: &[u8]) -> (r: bool)
    ensures
        r == (a@ == b@),
{
    if a.len() != b.len() {
        assert(a@.len() != b@.len());
        return false;
    }
    let n = a.len();
    let mut i: usize = 0;
    while i < n
        invariant
            0 <= i <= n,
            n == a@.len() == b@.len(),
            forall|j: int| 0 <= j < i ==> a@[j] == b@[j],
        decreases n - i,
    {
        if a[i] != b[i] {
            return false;
        }
        i += 1;
    }
    assert(a@ =~= b@);
    true
}


/// Outcome of reading a run of revisions while checking tree structure.
pub enum RevScan {
    /// Every revision was read: the raw revisions (with `last_child` still
    /// absent) and the bytes consumed.
    Done(Seq<RevisionView>, int),
    /// A revision could not be read.
    Truncated,
    /// A revision after the first referred to a parent not yet read.
    NonContiguous,
    /// The first revision was not the canonical empty root.
    MissingRoot,
}

/// Reads `count` revisions from `s`, carrying the revisions read so far in
/// `acc`: each one must point at an already-read parent, and the first must
/// be the canonical root.
pub open spec fn spec_scan_revisions(s: Seq<u8>, count: nat, acc: Seq<RevisionView>) -> RevScan
    decreases count,
{
    if count == 0 {
        RevScan::Done(acc, 0)
    } else {
        match spec_parse_revision(s) {
            None => RevScan::Truncated,
            Some((rv, k)) => {
                if (rv.parent as int) < acc.len() || (acc.len() == 0 && rv
                    == spec_root_revision()) {
                    match spec_scan_revisions(s.skip(k), (count - 1) as nat, acc.push(rv)) {
                        RevScan::Done(rs, m) => RevScan::Done(rs, k + m),
                        RevScan::Truncated => RevScan::Truncated,
                        RevScan::NonContiguous => RevScan::NonContiguous,
                        RevScan::MissingRoot => RevScan::MissingRoot,
                    }
                } else if acc.len() != 0 {
                    RevScan::NonContiguous
                } else {
                    RevScan::MissingRoot
                }
            },
        }
    }
}


/// Appends the encodings of `revs[from..]`.
#[verifier::loop_isolation(false)]
pub(crate) fn write_revisions(buf: &mut Vec<u8>, revs: &Vec<Revision>, from: usize)
    requires
        from <= revs@.len(),
    ensures
        final(buf)@ == old(buf)@ + spec_enc_revisions(rev_views(revs@).skip(from as int)),
{
    let n = revs.len();
    let mut i = from;
    while i < n
        invariant
            from <= i <= n,
            n == revs@.len(),
            buf@ == old(buf)@ + spec_enc_revisions(rev_views(revs@).subrange(from as int, i as int)),
        decreases n - i,
    {
        revs[i].serialize(buf);
        proof {
            lemma_enc_revisions_push(
                rev_views(revs@).subrange(from as int, i as int),
                rev_views(revs@)[i as int],
            );
            assert(rev_views(revs@).subrange(from as int, i + 1) =~= rev_views(revs@).subrange(
                from as int,
                i as int,
            ).push(rev_views(revs@)[i as int]));
            assert(revs@[i as int]@ == rev_views(revs@)[i as int]);
            assert(buf@ =~= old(buf)@ + spec_enc_revisions(
                rev_views(revs@).subrange(from as int, i + 1),
            ));
        }
        i += 1;
    }
    assert(rev_views(revs@).subrange(from as int, n as int) =~= rev_views(revs@).skip(from as int));
}

impl History {
    /// Encodes the header block and the revisions appended since `offset`.
    ///
    /// The first vector holds the start of the file: magic tag, version,
    /// current index, the revision index recorded as last saved, the save
    /// timestamp, a digest of `file_contents` computed fresh — never a
    /// cached one — and the total revision count. The second holds the
    /// encodings of `revisions[offset..]`, to be appended at the end of the
    /// file: revision bytes already on disk are never rewritten.
    #[verifier::loop_isolation(false)]
    pub fn serialize(
        &self,
        file_contents: &[u8],
        last_saved_revision: usize,
        timestamp: u64,
        offset: usize,
    ) -> (r: (Vec<u8>, Vec<u8>))
        requires
            offset <= self@.revisions.len(),
        ensures
            r.0@ == spec_enc_header(
                self@.current,
                last_saved_revision,
                timestamp,
                digest_of(file_contents@),
            ) + spec_varint(self@.revisions.len()),
            r.1@ == spec_enc_revisions(self@.revisions.skip(offset as int)),
    {
        let mut header: Vec<u8> = Vec::new();
        write_magic(&mut header);
        write_byte(&mut header, UNDO_FILE_VERSION);
        write_usize(&mut header, self.current);
        write_usize(&mut header, last_saved_revision);
        write_varint(&mut header, timestamp);
        let digest = get_hash(file_contents);
        header.extend_from_slice(digest.as_slice());
        write_usize(&mut header, self.revisions.len());
        assert(header@ =~= spec_enc_header(
            self@.current,
            last_saved_revision,
            timestamp,
            digest_of(file_contents@),
        ) + spec_varint(self@.revisions.len()));
        let mut tail: Vec<u8> = Vec::new();
        write_revisions(&mut tail, &self.revisions, offset);
        (header, tail)
    }

    /// Reads the magic tag, version, header fields and stored digest, and
    /// recomputes the digest of the live document. A wrong tag or version
    /// is `InvalidHeader`; a digest that no longer matches the document is
    /// `Outdated`; truncation is `Io`.
    pub fn read_header(data: &[u8], file_contents: &[u8]) -> (r: Result<
        (UndoHeader, usize),
        StateError,
    >)
        ensures
            ({
                let s = data@;
                match r {
                    Ok(v) => {
                        &&& spec_magic_version_ok(s)
                        &&& spec_parse_header_fields(s.skip(6)) matches Some(f) && f.0.0
                            == v.0.current && f.0.1 == v.0.last_saved_revision && f.0.2
                            == v.0.timestamp && f.0.3 == digest_of(file_contents@) && v.1 == 6
                            + f.1
                        &&& v.1 <= s.len()
                    },
                    Err(e) => {
                        &&& (e is InvalidHeader <==> s.len() >= 6 && !spec_magic_version_ok(s))
                        &&& (e is Io <==> s.len() < 6 || (spec_magic_version_ok(s)
                            && spec_parse_header_fields(s.skip(6)) is None))
                        &&& (e is Outdated <==> spec_magic_version_ok(s) && (
                        spec_parse_header_fields(s.skip(6)) matches Some(f) && f.0.3 != digest_of(
                            file_contents@,
                        )))
                        &&& (e is InvalidHeader || e is Io || e is Outdated)
                    },
                }
            }),
    {
        if data.len() < 6 {
            return Err(StateError::Io);
        }
        let magic_ok = data[0] == 72 && data[1] == 101 && data[2] == 108 && data[3] == 105
            && data[4] == 120 && data[5] == UNDO_FILE_VERSION;
        proof {
            if magic_ok {
                assert(data@.subrange(0, 5) =~= spec_magic());
            } else {
                if data@.subrange(0, 5) == spec_magic() {
                    assert(data@[0] == data@.subrange(0, 5)[0]);
                    assert(data@[1] == data@.subrange(0, 5)[1]);
                    assert(data@[2] == data@.subrange(0, 5)[2]);
                    assert(data@[3] == data@.subrange(0, 5)[3]);
                    assert(data@[4] == data@.subrange(0, 5)[4]);
                }
            }
        }
        if !magic_ok {
            return Err(StateError::InvalidHeader);
        }
        let ghost hs = data@.skip(6);
        let (current, p1) = match read_usize(data, 6) {
            Ok(v) => v,
            Err(e) => {
                return Err(e);
            },
        };
        assert(hs.skip(p1 - 6) =~= data@.skip(p1 as int));
        let (last_saved, p2) = match read_usize(data, p1) {
            Ok(v) => v,
            Err(e) => {
                return Err(e);
            },
        };
        assert(hs.skip(p2 - 6) =~= data@.skip(p2 as int));
        let (timestamp, p3) = match read_varint(data, p2) {
            Ok(v) => v,
            Err(e) => {
                return Err(e);
            },
        };
        if data.len() - p3 < HASH_DIGEST_LENGTH {
            return Err(StateError::Io);
        }
        let stored = vstd::slice::slice_subrange(data, p3, p3 + HASH_DIGEST_LENGTH);
        assert(stored@ =~= hs.subrange(p3 - 6, p3 - 6 + HASH_DIGEST_LENGTH));
        let computed = get_hash(file_contents);
        if !eq_bytes(stored, computed.as_slice()) {
            return Err(StateError::Outdated);
        }
        let hdr = UndoHeader { current, last_saved_revision: last_saved, timestamp };
        Ok((hdr, p3 + HASH_DIGEST_LENGTH))
    }

    /// The header check collapsed to a boolean: does `data` start with a
    /// well-formed header whose digest matches the live document?
    pub fn is_valid(data: &[u8], file_contents: &[u8]) -> (r: bool)
        ensures
            r == (spec_magic_version_ok(data@) && (spec_parse_header_fields(data@.skip(6))
                matches Some(f) && f.0.3 == digest_of(file_contents@))),
    {
        match History::read_header(data, file_contents) {
            Ok(_) => true,
            Err(_) => false,
        }
    }
}


impl History {
    /// Reads a history back: validates the header, then reads a revision
    /// count and that many revisions in order, rebuilding each parent's
    /// `last_child` incrementally. A revision whose parent has not been
    /// read yet makes the file non-contiguous; a first revision that is
    /// not the canonical empty root is rejected too. Returns the header
    /// (current index, last-saved index, timestamp) and the tree, with the
    /// navigation pointer at the header's current index.
    #[verifier::loop_isolation(false)]
    #[verifier::rlimit(100)]
    pub fn deserialize(data: &[u8], file_contents: &[u8]) -> (r: Result<
        (UndoHeader, History),
        StateError,
    >)
        ensures
            ({
                let s = data@;
                let magic_ok = spec_magic_version_ok(s);
                let fields = spec_parse_header_fields(s.skip(6));
                let hdr_ok = magic_ok && (fields matches Some(f) && f.0.3 == digest_of(
                    file_contents@,
                ));
                match r {
                    Ok(v) => {
                        &&& hdr_ok
                        &&& fields matches Some(f) && {
                            let hend = 6 + f.1;
                            &&& v.0.current == f.0.0
                            &&& v.0.last_saved_revision == f.0.1
                            &&& v.0.timestamp == f.0.2
                            &&& spec_parse_usize(s.skip(hend)) matches Some(c) && {
                                let rstart = hend + c.1;
                                &&& spec_scan_revisions(s.skip(rstart), c.0 as nat, Seq::empty())
                                    matches RevScan::Done(raw, m) && {
                                    &&& v.1@.revisions.len() == raw.len()
                                    &&& forall|i: int|
                                        0 <= i < raw.len() ==> #[trigger] v.1@.revisions[i]
                                            == (RevisionView {
                                            last_child: spec_latest_child(raw, i),
                                            ..raw[i]
                                        })
                                }
                            }
                        }
                        &&& v.1@.current == v.0.current
                        &&& v.1@.undofile_parent is None
                        &&& crate::history::last_child_consistent(v.1@.revisions)
                        &&& crate::history::tree_shaped(v.1@.revisions)
                        &&& v.1@.revisions.len() > 0 ==> crate::history::is_root_shape(
                            v.1@.revisions[0],
                        )
                    },
                    Err(e) => {
                        let count_ok = hdr_ok && (fields matches Some(f) && (spec_parse_usize(
                            s.skip(6 + f.1),
                        ) is Some));
                        let scan = if count_ok {
                            let f = fields.unwrap();
                            let c = spec_parse_usize(s.skip(6 + f.1)).unwrap();
                            Some(
                                spec_scan_revisions(
                                    s.skip(6 + f.1 + c.1),
                                    c.0 as nat,
                                    Seq::empty(),
                                ),
                            )
                        } else {
                            None
                        };
                        &&& (e is InvalidHeader <==> s.len() >= 6 && !magic_ok)
                        &&& (e is Outdated <==> magic_ok && (fields matches Some(f) && f.0.3
                            != digest_of(file_contents@)))
                        &&& (e is Io <==> (s.len() < 6 || (magic_ok && fields is None) || (hdr_ok
                            && (fields matches Some(f) && spec_parse_usize(s.skip(6 + f.1))
                            is None)) || scan == Some(RevScan::Truncated)))
                        &&& (e is InvalidData <==> (scan == Some(RevScan::NonContiguous) || scan
                            == Some(RevScan::MissingRoot)))
                        &&& (e is InvalidHeader || e is Outdated || e is Io || e is InvalidData)
                    },
                }
            }),
    {
        let (hdr, hend) = match History::read_header(data, file_contents) {
            Ok(v) => v,
            Err(e) => {
                return Err(e);
            },
        };
        let (count, rstart) = match read_usize(data, hend) {
            Ok(v) => v,
            Err(e) => {
                return Err(e);
            },
        };
        let (revisions, cur) = match read_revisions(data, rstart, count) {
            Ok(v) => v,
            Err(e) => {
                return Err(e);
            },
        };
        let history = History { revisions, current: hdr.current, undofile_parent: None };
        proof {
            let raw = (match spec_scan_revisions(
                data@.skip(rstart as int),
                count as nat,
                Seq::empty(),
            ) {
                RevScan::Done(rs, m) => rs,
                _ => Seq::empty(),
            });
            assert forall|k: int|
                0 <= k < raw.len() implies #[trigger] history@.revisions[k].last_child
                == spec_latest_child(history@.revisions, k) by {
                lemma_latest_child_parents_only(raw, history@.revisions, k);
            };
        }
        Ok((hdr, history))
    }
}


/// Appends a freshly read revision whose parent is already present:
/// repoints the parent's `last_child` and pushes, keeping the vector equal
/// to the raw revisions with recomputed `last_child` pointers.
fn push_scanned(revisions: &mut Vec<Revision>, rev: Revision, Ghost(acc): Ghost<Seq<RevisionView>>)
    requires
        (rev@.parent as int) < old(revisions)@.len(),
        rev@.last_child is None,
        acc.len() == old(revisions)@.len(),
        forall|k: int|
            0 <= k < acc.len() ==> #[trigger] rev_views(old(revisions)@)[k] == (RevisionView {
                last_child: spec_latest_child(acc, k),
                ..acc[k]
            }),
        forall|k: int|
            0 <= k < acc.len() ==> ((#[trigger] acc[k].parent as int) < k || (k == 0 && acc[0]
                == spec_root_revision())),
    ensures
        final(revisions)@.len() == acc.len() + 1,
        forall|k: int|
            0 <= k < acc.len() + 1 ==> #[trigger] rev_views(final(revisions)@)[k] == (RevisionView {
                last_child: spec_latest_child(acc.push(rev@), k),
                ..acc.push(rev@)[k]
            }),
{
    let ghost rv = rev@;
    let idx = revisions.len();
    let parent_idx = rev.parent;
    let mut parent_rev = revisions[parent_idx].duplicate();
    parent_rev.last_child = Some(idx);
    revisions[parent_idx] = parent_rev;
    revisions.push(rev);
    proof {
        let old_views = rev_views(old(revisions)@);
        let acc2 = acc.push(rv);
        assert forall|k: int| 0 <= k < acc.len() + 1 implies #[trigger] rev_views(revisions@)[k]
            == (RevisionView { last_child: spec_latest_child(acc2, k), ..acc2[k] }) by {
            crate::history::lemma_latest_child_push(acc, rv, k);
            if k == acc.len() {
                crate::history::lemma_latest_child_absent(acc, k);
                assert(rev_views(revisions@)[k] == rv);
                assert((rv.parent as int) != k);
                assert(spec_latest_child(acc2, k) == spec_latest_child(acc, k));
                assert(spec_latest_child(acc, k) is None);
            } else if k == rv.parent as int {
                assert(rev_views(revisions@)[k] == (RevisionView {
                    last_child: Some(idx),
                    ..old_views[k]
                }));
                assert(old_views[k] == (RevisionView {
                    last_child: spec_latest_child(acc, k),
                    ..acc[k]
                }));
                assert(spec_latest_child(acc2, k) == Some(acc.len() as usize));
            } else {
                assert(rev_views(revisions@)[k] == old_views[k]);
                assert(spec_latest_child(acc2, k) == spec_latest_child(acc, k));
            }
        };
    }
}

/// One unfolding of the revision scan when a revision parses.
proof fn lemma_scan_step(s: Seq<u8>, count: nat, acc: Seq<RevisionView>, rv: RevisionView, k: int)
    requires
        count > 0,
        spec_parse_revision(s) == Some((rv, k)),
    ensures
        spec_scan_revisions(s, count, acc) == (if (rv.parent as int) < acc.len() || (acc.len()
            == 0 && rv == spec_root_revision()) {
            match spec_scan_revisions(s.skip(k), (count - 1) as nat, acc.push(rv)) {
                RevScan::Done(rs, m) => RevScan::Done(rs, k + m),
                RevScan::Truncated => RevScan::Truncated,
                RevScan::NonContiguous => RevScan::NonContiguous,
                RevScan::MissingRoot => RevScan::MissingRoot,
            }
        } else if acc.len() != 0 {
            RevScan::NonContiguous
        } else {
            RevScan::MissingRoot
        }),
{
}

/// One unfolding of the revision scan when a revision does not parse.
proof fn lemma_scan_truncated(s: Seq<u8>, count: nat, acc: Seq<RevisionView>)
    requires
        count > 0,
        spec_parse_revision(s) is None,
    ensures
        spec_scan_revisions(s, count, acc) == RevScan::Truncated,
{
}

/// Reads `count` revisions, checking contiguity and the root, and
/// rebuilding `last_child` pointers incrementally as revisions arrive.
#[verifier::loop_isolation(false)]
#[verifier::rlimit(100)]
#[verifier::spinoff_prover]
fn read_revisions(data: &[u8], pos: usize, count: usize) -> (r: Result<
    (Vec<Revision>, usize),
    StateError,
>)
    requires
        pos <= data@.len(),
    ensures
        ({
            let scan = spec_scan_revisions(data@.skip(pos as int), count as nat, Seq::empty());
            match r {
                Ok(v) => {
                    &&& pos <= v.1 <= data@.len()
                    &&& scan matches RevScan::Done(raw, m) && {
                        &&& m == v.1 - pos
                        &&& v.0@.len() == raw.len()
                        &&& rev_views(v.0@).len() == raw.len()
                        &&& forall|k: int|
                            0 <= k < raw.len() ==> #[trigger] rev_views(v.0@)[k] == (RevisionView {
                                last_child: spec_latest_child(raw, k),
                                ..raw[k]
                            })
                        &&& forall|k: int|
                            0 <= k < raw.len() ==> ((#[trigger] raw[k].parent as int) < k || (k
                                == 0 && raw[0] == spec_root_revision()))
                    }
                },
                Err(e) => {
                    &&& (e is Io <==> scan is Truncated)
                    &&& (e is InvalidData <==> scan is NonContiguous || scan is MissingRoot)
                    &&& (e is Io || e is InvalidData)
                },
            }
        }),
{
    let ghost s0 = data@.skip(pos as int);
    let mut revisions: Vec<Revision> = Vec::new();
    let ghost acc = Seq::<RevisionView>::empty();
    let mut cur = pos;
    let mut i: usize = 0;
    let ghost whole_scan = spec_scan_revisions(s0, count as nat, Seq::empty());
    while i < count
        invariant
            0 <= i <= count,
            pos <= cur <= data@.len(),
            revisions@.len() == i,
            acc.len() == i,
            whole_scan == spec_scan_revisions(s0, count as nat, Seq::empty()),
            s0 == data@.skip(pos as int),
            ({
                let rem = spec_scan_revisions(data@.skip(cur as int), (count - i) as nat, acc);
                match rem {
                    RevScan::Done(rs, m) => whole_scan == RevScan::Done(rs, (cur - pos) + m),
                    RevScan::Truncated => whole_scan is Truncated,
                    RevScan::NonContiguous => whole_scan is NonContiguous,
                    RevScan::MissingRoot => whole_scan is MissingRoot,
                }
            }),
            forall|k: int|
                0 <= k < i ==> #[trigger] rev_views(revisions@)[k] == (RevisionView {
                    last_child: spec_latest_child(acc, k),
                    ..acc[k]
                }),
            forall|k: int|
                0 <= k < i ==> ((#[trigger] acc[k].parent as int) < k || (k == 0 && acc[0]
                    == spec_root_revision())),
        decreases count - i,
    {
        let (rev, nxt) = match Revision::deserialize(data, cur) {
            Ok(v) => v,
            Err(e) => {
                proof {
                    lemma_scan_truncated(data@.skip(cur as int), (count - i) as nat, acc);
                }
                return Err(e);
            },
        };
        proof {
            assert(data@.skip(cur as int).skip(nxt - cur) =~= data@.skip(nxt as int));
            lemma_scan_step(
                data@.skip(cur as int),
                (count - i) as nat,
                acc,
                rev@,
                nxt - cur,
            );
        }
        let len = revisions.len();
        let ghost rv = rev@;
        let ghost old_acc = acc;
        if rev.parent < len {
            push_scanned(&mut revisions, rev, Ghost(acc));
            proof {
                acc = acc.push(rv);
            }
        } else if len != 0 {
            return Err(StateError::InvalidData("non-contiguous history".to_owned()));
        } else {
            let root = Revision::root();
            let is_root = rev.same_sig(&root) && rev.timestamp == 0;
            if !is_root {
                return Err(StateError::InvalidData("Missing 0th revision".to_owned()));
            }
            assert(rv == spec_root_revision());
            revisions.push(rev);
            proof {
                acc = acc.push(rv);
                assert forall|k: int| 0 <= k < i + 1 implies #[trigger] rev_views(revisions@)[k]
                    == (RevisionView { last_child: spec_latest_child(acc, k), ..acc[k] }) by {
                    assert(acc.len() == 1);
                };
            }
        }
        cur = nxt;
        i += 1;
    }
    proof {
        assert(spec_scan_revisions(data@.skip(cur as int), 0, acc) == RevScan::Done(acc, 0));
        assert(whole_scan == RevScan::Done(acc, (cur - pos) as int));
    }
    Ok((revisions, cur))
}


/// The revisions as the file stores them: `last_child` not yet rebuilt.
pub open spec fn strip_last_childs(rs: Seq<RevisionView>) -> Seq<RevisionView> {
    Seq::new(rs.len(), |i: int| RevisionView { last_child: None, ..rs[i] })
}

/// Scanning the encoding of a well-linked revision sequence succeeds and
/// yields those revisions, stripped of their `last_child` pointers.
pub proof fn lemma_scan_enc(rs: Seq<RevisionView>, acc: Seq<RevisionView>, rest: Seq<u8>)
    requires
        forall|j: int| 0 <= j < rs.len() ==> spec_revision_serializable(#[trigger] rs[j]),
        forall|j: int|
            0 <= j < rs.len() ==> ((#[trigger] rs[j].parent as int) < acc.len() + j || (acc.len()
                + j == 0 && is_root_shape(rs[0]))),
    ensures
        spec_scan_revisions(spec_enc_revisions(rs) + rest, rs.len(), acc) == RevScan::Done(
            acc + strip_last_childs(rs),
            spec_enc_revisions(rs).len() as int,
        ),
    decreases rs.len(),
{
    let whole = spec_enc_revisions(rs) + rest;
    if rs.len() == 0 {
        assert(acc + strip_last_childs(rs) =~= acc);
        assert(spec_scan_revisions(whole, 0, acc) == RevScan::Done(acc, 0));
    } else {
        let e0 = spec_enc_revision(rs[0]);
        let tail = spec_enc_revisions(rs.skip(1));
        assert(whole =~= e0 + (tail + rest));
        lemma_parse_revision(rs[0], tail + rest);
        let rv = RevisionView { last_child: None, ..rs[0] };
        assert(spec_parse_revision(whole) == Some((rv, e0.len() as int)));
        assert((rv.parent as int) < acc.len() || (acc.len() == 0 && rv == spec_root_revision()))
            by {
            if acc.len() == 0 {
                assert(is_root_shape(rs[0]));
            }
        };
        let acc2 = acc.push(rv);
        assert(forall|j: int|
            0 <= j < rs.skip(1).len() ==> ((#[trigger] rs.skip(1)[j].parent as int) < acc2.len()
                + j || (acc2.len() + j == 0 && is_root_shape(rs.skip(1)[0])))) by {
            assert(forall|j: int| 0 <= j < rs.skip(1).len() ==> rs.skip(1)[j] == rs[j + 1]);
        };
        lemma_scan_enc(rs.skip(1), acc2, rest);
        assert(whole.skip(e0.len() as int) =~= tail + rest);
        assert(acc + strip_last_childs(rs) =~= acc2 + strip_last_childs(rs.skip(1)));
    }
}

/// Law: writing a history and reading the bytes back round-trips the
/// revision contents, the parent linkage and the current pointer exactly,
/// and rebuilds `last_child` pointers equal to the ones a fresh build
/// carries. Holds for every well-formed history with consistent
/// `last_child` caches whose revisions fit the format's counters.
#[verifier::rlimit(100)]
#[verifier::spinoff_prover]
pub proof fn lemma_serialize_deserialize_round_trip(
    h: HistoryView,
    last_saved: usize,
    timestamp: u64,
    digest: Seq<u8>,
)
    requires
        digest.len() == HASH_DIGEST_LENGTH,
        h.revisions.len() <= usize::MAX,
        forall|i: int|
            0 <= i < h.revisions.len() ==> spec_revision_serializable(#[trigger] h.revisions[i]),
        history_wf(h),
        last_child_consistent(h.revisions),
    ensures
        ({
            let bytes = spec_enc_header(h.current, last_saved, timestamp, digest) + spec_varint(
                h.revisions.len(),
            ) + spec_enc_revisions(h.revisions);
            &&& spec_magic_version_ok(bytes)
            &&& spec_parse_header_fields(bytes.skip(6)) matches Some(f) && f.0 == (
            h.current,
            last_saved,
            timestamp,
            digest,
            ) && (spec_parse_usize(bytes.skip(6 + f.1)) matches Some(c) && (c.0 as nat)
                == h.revisions.len() && (spec_scan_revisions(
                bytes.skip(6 + f.1 + c.1),
                c.0 as nat,
                Seq::empty(),
            ) matches RevScan::Done(raw, m) && raw.len() == h.revisions.len() && forall|i: int|
                0 <= i < raw.len() ==> (RevisionView {
                    last_child: spec_latest_child(raw, i),
                    ..raw[i]
                }) == #[trigger] h.revisions[i]))
        }),
{
    let va = spec_varint(h.current as nat);
    let vb = spec_varint(last_saved as nat);
    let vc = spec_varint(timestamp as nat);
    let vd = spec_varint(h.revisions.len());
    let ve = spec_enc_revisions(h.revisions);
    let bytes = spec_enc_header(h.current, last_saved, timestamp, digest) + vd + ve;
    assert(bytes =~= spec_magic() + (seq![UNDO_FILE_VERSION] + (va + (vb + (vc + (digest + (vd
        + ve)))))));
    assert(bytes.subrange(0, 5) =~= spec_magic());
    assert(bytes[5] == UNDO_FILE_VERSION);
    assert(spec_magic_version_ok(bytes));
    let hs = bytes.skip(6);
    assert(hs =~= va + (vb + (vc + (digest + (vd + ve)))));
    crate::combinators::lemma_parse_varint(h.current as nat, vb + (vc + (digest + (vd + ve))));
    crate::combinators::lemma_parse_varint(last_saved as nat, vc + (digest + (vd + ve)));
    crate::combinators::lemma_parse_varint(timestamp as nat, digest + (vd + ve));
    assert(hs.skip(va.len() as int) =~= vb + (vc + (digest + (vd + ve))));
    assert(hs.skip(va.len() + vb.len() as int) =~= vc + (digest + (vd + ve)));
    let k3 = va.len() + vb.len() + vc.len() as int;
    assert(hs.subrange(k3, k3 + HASH_DIGEST_LENGTH) =~= digest);
    let fend = k3 + HASH_DIGEST_LENGTH;
    assert(spec_parse_header_fields(hs) == Some(
        ((h.current, last_saved, timestamp, digest), fend),
    ));
    assert(bytes.skip(6 + fend) =~= vd + (ve + Seq::<u8>::empty()));
    crate::combinators::lemma_parse_varint(h.revisions.len(), ve + Seq::<u8>::empty());
    assert(spec_parse_usize(bytes.skip(6 + fend)) == Some(
        (h.revisions.len() as usize, vd.len() as int),
    ));
    assert(forall|j: int|
        0 <= j < h.revisions.len() ==> ((#[trigger] h.revisions[j].parent as int) < 0 + j || (0
            + j == 0 && is_root_shape(h.revisions[0]))));
    lemma_scan_enc(h.revisions, Seq::empty(), Seq::empty());
    assert(bytes.skip(6 + fend + vd.len()) =~= ve + Seq::<u8>::empty());
    let raw = Seq::<RevisionView>::empty() + strip_last_childs(h.revisions);
    assert(raw =~= strip_last_childs(h.revisions));
    assert forall|i: int| 0 <= i < raw.len() implies (RevisionView {
        last_child: spec_latest_child(raw, i),
        ..raw[i]
    }) == #[trigger] h.revisions[i] by {
        lemma_latest_child_parents_only(raw, h.revisions, i);
        assert(h.revisions[i].last_child == spec_latest_child(h.revisions, i));
    };
}

} // verus!
