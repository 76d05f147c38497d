//! Primitive readers and writers for the undo-file format.
//!
//! Every multi-byte integer in the format uses the same variable-width
//! encoding: seven value bits per byte, least significant first, with the
//! high bit set on every byte except the last. Strings are a length prefix
//! followed by UTF-8 bytes; optional values are a one-byte presence flag.

use vstd::prelude::*;

verus! {

use crate::history::error::StateError;

/// Variable-width encoding of an unsigned integer: seven value bits per
/// byte, least significant group first, high bit marking a continuation.
pub open spec fn spec_varint(n: nat) -> Seq<u8>
    decreases n,
{
    if n < 128 {
        seq![n as u8]
    } else {
        seq![(128 + (n % 128)) as u8] + spec_varint(n / 128)
    }
}

/// Parse of a variable-width integer at the front of `s`: the value and the
/// number of bytes consumed, or `None` on truncation.
pub open spec fn spec_parse_varint(s: Seq<u8>) -> Option<(nat, int)>
    decreases s.len(),
{
    if s.len() == 0 {
        None
    } else if s[0] < 128 {
        Some((s[0] as nat, 1))
    } else {
        match spec_parse_varint(s.skip(1)) {
            Some(r) => Some((((s[0] - 128) + 128 * r.0) as nat, r.1 + 1)),
            None => None,
        }
    }
}

/// Parse of a variable-width integer that must fit in a `u64`.
pub open spec fn spec_parse_u64(s: Seq<u8>) -> Option<(u64, int)> {
    match spec_parse_varint(s) {
        Some(r) => if r.0 <= u64::MAX {
            Some((r.0 as u64, r.1))
        } else {
            None
        },
        None => None,
    }
}

/// Parse of a variable-width integer that must fit in a `usize`.
pub open spec fn spec_parse_usize(s: Seq<u8>) -> Option<(usize, int)> {
    match spec_parse_varint(s) {
        Some(r) => if r.0 <= usize::MAX {
            Some((r.0 as usize, r.1))
        } else {
            None
        },
        None => None,
    }
}

/// Decoding inverts encoding, whatever bytes follow the encoded integer.
pub proof fn lemma_parse_varint(n: nat, rest: Seq<u8>)
    ensures
        spec_parse_varint(spec_varint(n) + rest) == Some((n, spec_varint(n).len() as int)),
    decreases n,
{
    let s = spec_varint(n) + rest;
    if n < 128 {
        assert(s[0] == n as u8);
        assert(spec_parse_varint(s) == Some((n, 1int)));
    } else {
        lemma_parse_varint(n / 128, rest);
        assert(s.skip(1) =~= spec_varint(n / 128) + rest);
        assert(s[0] == (128 + (n % 128)) as u8);
        assert((s[0] - 128) + 128 * (n / 128) == n) by {
            vstd::arithmetic::div_mod::lemma_fundamental_div_mod(n as int, 128);
        };
    }
}

/// Appends the variable-width encoding of `n` to `buf`.
pub fn write_varint(buf: &mut Vec<u8>, n: u64)
    ensures
        final(buf)@ == old(buf)@ + spec_varint(n as nat),
    decreases n,
{
    if n < 128 {
        buf.push(n as u8);
        assert(buf@ =~= old(buf)@ + spec_varint(n as nat));
    } else {
        buf.push((128 + (n % 128)) as u8);
        let ghost mid = buf@;
        write_varint(buf, n / 128);
        assert(buf@ =~= old(buf)@ + spec_varint(n as nat));
    }
}

/// Appends the variable-width encoding of `n` to `buf`.
pub fn write_usize(buf: &mut Vec<u8>, n: usize)
    ensures
        final(buf)@ == old(buf)@ + spec_varint(n as nat),
{
    write_varint(buf, n as u64);
}

/// Reads a variable-width integer from `data` at `pos`, returning the value
/// and the position just past it.
pub fn read_varint(data: &[u8], pos: usize) -> (r: Result<(u64, usize), StateError>)
    requires
        pos <= data@.len(),
    ensures
        match r {
            Ok(v) => {
                &&& pos <= v.1 <= data@.len()
                &&& spec_parse_u64(data@.skip(pos as int)) == Some((v.0, v.1 - pos))
            },
            Err(e) => {
                &&& spec_parse_u64(data@.skip(pos as int)) is None
                &&& e is Io
            },
        },
    decreases data@.len() - pos,
{
    if pos >= data.len() {
        assert(data@.skip(pos as int).len() == 0);
        return Err(StateError::Io);
    }
    let b = data[pos];
    let ghost s = data@.skip(pos as int);
    assert(s[0] == b);
    if b < 128 {
        Ok((b as u64, pos + 1))
    } else {
        assert(s.skip(1) =~= data@.skip(pos as int + 1));
        match read_varint(data, pos + 1) {
            Err(e) => Err(e),
            Ok((m, end)) => {
                let low = (b - 128) as u64;
                if m <= (u64::MAX - low) / 128 {
                    assert(128 * (m as nat) + low <= u64::MAX) by {
                        vstd::arithmetic::div_mod::lemma_fundamental_div_mod(
                            (u64::MAX - low) as int,
                            128,
                        );
                    };
                    Ok((low + 128 * m, end))
                } else {
                    assert(128 * (m as nat) + low > u64::MAX) by {
                        vstd::arithmetic::div_mod::lemma_fundamental_div_mod(
                            (u64::MAX - low) as int,
                            128,
                        );
                    };
                    Err(StateError::Io)
                }
            },
        }
    }
}

/// Reads a variable-width integer that must fit in a `usize`.
pub fn read_usize(data: &[u8], pos: usize) -> (r: Result<(usize, usize), StateError>)
    requires
        pos <= data@.len(),
    ensures
        match r {
            Ok(v) => {
                &&& pos <= v.1 <= data@.len()
                &&& spec_parse_usize(data@.skip(pos as int)) == Some((v.0, v.1 - pos))
            },
            Err(e) => {
                &&& spec_parse_usize(data@.skip(pos as int)) is None
                &&& e is Io
            },
        },
{
    match read_varint(data, pos) {
        Err(e) => Err(e),
        Ok((v, end)) => {
            if v <= usize::MAX as u64 {
                Ok((v as usize, end))
            } else {
                Err(StateError::Io)
            }
        },
    }
}

/// Appends a single byte.
pub fn write_byte(buf: &mut Vec<u8>, b: u8)
    ensures
        final(buf)@ == old(buf)@ + seq![b],
{
    buf.push(b);
    assert(buf@ =~= old(buf)@ + seq![b]);
}

/// Reads a single byte.
pub fn read_byte(data: &[u8], pos: usize) -> (r: Result<(u8, usize), StateError>)
    requires
        pos <= data@.len(),
    ensures
        match r {
            Ok(v) => {
                &&& pos < data@.len()
                &&& v.0 == data@[pos as int]
                &&& v.1 == pos + 1
            },
            Err(e) => {
                &&& pos >= data@.len()
                &&& e is Io
            },
        },
{
    if pos >= data.len() {
        return Err(StateError::Io);
    }
    Ok((data[pos], pos + 1))
}

/// Encoding of an optional value's presence flag.
pub open spec fn spec_presence(present: bool) -> Seq<u8> {
    if present {
        seq![1u8]
    } else {
        seq![0u8]
    }
}

/// Parse of a presence flag: any byte other than 0 or 1 is rejected.
pub open spec fn spec_parse_presence(s: Seq<u8>) -> Option<(bool, int)> {
    if s.len() == 0 {
        None
    } else if s[0] == 0 {
        Some((false, 1))
    } else if s[0] == 1 {
        Some((true, 1))
    } else {
        None
    }
}

/// Appends a presence flag.
pub fn write_presence(buf: &mut Vec<u8>, present: bool)
    ensures
        final(buf)@ == old(buf)@ + spec_presence(present),
{
    if present {
        write_byte(buf, 1);
    } else {
        write_byte(buf, 0);
    }
}

/// Reads a presence flag.
pub fn read_presence(data: &[u8], pos: usize) -> (r: Result<(bool, usize), StateError>)
    requires
        pos <= data@.len(),
    ensures
        match r {
            Ok(v) => {
                &&& pos <= v.1 <= data@.len()
                &&& spec_parse_presence(data@.skip(pos as int)) == Some((v.0, v.1 - pos))
            },
            Err(e) => {
                &&& spec_parse_presence(data@.skip(pos as int)) is None
                &&& e is Io
            },
        },
{
    let ghost s = data@.skip(pos as int);
    match read_byte(data, pos) {
        Err(e) => Err(e),
        Ok((b, end)) => {
            assert(s.len() > 0 && s[0] == b);
            if b == 0 {
                assert(spec_parse_presence(s) == Some((false, 1int)));
                Ok((false, end))
            } else if b == 1 {
                assert(spec_parse_presence(s) == Some((true, 1int)));
                Ok((true, end))
            } else {
                Err(StateError::Io)
            }
        },
    }
}

} // verus!
