use vstd::prelude::*;
use vstd::bytes::*;

use crate::value::{Ty, Val};

verus! {

/// Errors of a decode call. Decoding a value fails only with `OutOfData` or
/// `InvalidData`; decoding a key also with `TrailingBytes`. `UnknownFieldNumber`
/// is for callers that assemble values field by field.
#[derive(Clone, Copy, Debug, PartialEq, Eq, Structural)]
pub enum DecodeError {
    OutOfData,
    InvalidData,
    UnknownFieldNumber,
    TrailingBytes,
}

/// Errors of an encode call.
#[derive(Clone, Copy, Debug, PartialEq, Eq, Structural)]
pub enum EncodeError {
    UnknownError,
}

/// Whether the bytes are well-formed UTF-8, as `core::str::from_utf8` decides it.
pub uninterp spec fn utf8_valid(b: Seq<u8>) -> bool;

/// Relies on `core::str::from_utf8`: it succeeds exactly on well-formed UTF-8.
#[verifier::external_body]
pub(crate) fn is_utf8(b: &[u8]) -> (r: bool)
    ensures
        r == utf8_valid(b@),
{
    core::str::from_utf8(b).is_ok()
}

/// The largest length that a 4-byte prefix can state.
pub open spec fn max_frame() -> nat {
    0xffff_ffff
}

/// A payload preceded by its byte length as a 4-byte little-endian integer.
pub open spec fn frame(body: Seq<u8>) -> Seq<u8> {
    spec_u32_to_le_bytes(body.len() as u32) + body
}

/// Whether a value has a fixed width and is never framed.
pub open spec fn is_scalar(v: Val) -> bool {
    match v {
        Val::Str(_) | Val::Struct(_) | Val::List(_) => false,
        _ => true,
    }
}

/// The children of a struct or list value.
pub open spec fn children(v: Val) -> Seq<Val> {
    match v {
        Val::Struct(fs) => fs,
        Val::List(es) => es,
        _ => seq![],
    }
}

/// The encoding of `v`: as the whole payload (`nested == false`) or as a field
/// or list element (`nested == true`), where variable-length values are framed.
pub open spec fn enc(v: Val, nested: bool) -> Seq<u8>
    decreases v, 1nat, if nested { 1nat } else { 0nat },
{
    if nested && !is_scalar(v) {
        frame(enc(v, false))
    } else {
        match v {
            Val::U32(x) => spec_u32_to_le_bytes(x),
            Val::U64(x) => spec_u64_to_le_bytes(x),
            Val::U128(x) => spec_u128_to_le_bytes(x),
            Val::AccountId(x) => spec_u64_to_le_bytes(x),
            Val::Str(b) => b,
            Val::Struct(fs) => enc_children(v, 0),
            Val::List(es) => spec_u32_to_le_bytes(es.len() as u32) + enc_children(v, 0),
        }
    }
}

/// The nested encodings of the children of `v` from index `i` on, concatenated.
pub open spec fn enc_children(v: Val, i: nat) -> Seq<u8>
    decreases v, 0nat, children(v).len() - i,
{
    if i < children(v).len() {
        enc(children(v)[i as int], true) + enc_children(v, i + 1)
    } else {
        seq![]
    }
}

/// Whether every length that the encoding of `v` states fits in its 4-byte prefix.
pub open spec fn encodable(v: Val) -> bool
    decreases v,
{
    match v {
        Val::Str(b) => b.len() <= max_frame(),
        Val::Struct(fs) => enc_children(v, 0).len() <= max_frame() && forall|i: int|
            0 <= i < fs.len() ==> encodable(#[trigger] fs[i]),
        Val::List(es) => es.len() <= max_frame() && 4 + enc_children(v, 0).len() <= max_frame()
            && forall|i: int| 0 <= i < es.len() ==> encodable(#[trigger] es[i]),
        _ => true,
    }
}

/// Whether `v` is a value of schema type `t`, with well-formed strings.
pub open spec fn has_type(v: Val, t: Ty) -> bool
    decreases v,
{
    match (v, t) {
        (Val::U32(_), Ty::U32) => true,
        (Val::U64(_), Ty::U64) => true,
        (Val::U128(_), Ty::U128) => true,
        (Val::AccountId(_), Ty::AccountId) => true,
        (Val::Str(b), Ty::Str) => utf8_valid(b),
        (Val::Struct(fs), Ty::Struct(fts)) => fs.len() == fts.len() && forall|i: int|
            0 <= i < fs.len() ==> has_type(#[trigger] fs[i], fts[i]),
        (Val::List(es), Ty::List(et)) => forall|i: int|
            0 <= i < es.len() ==> has_type(#[trigger] es[i], *et),
        _ => false,
    }
}

/// A decode result with `vs` decoded before it over `k` more bytes.
pub open spec fn prepend(vs: Seq<Val>, k: nat, r: Result<(Seq<Val>, nat), DecodeError>) -> Result<
    (Seq<Val>, nat),
    DecodeError,
> {
    match r {
        Ok((ws, m)) => Ok((vs + ws, k + m)),
        Err(e) => Err(e),
    }
}

/// The bytes framed at the start of `b`, with the prefix's length: `None` where
/// `b` holds fewer bytes than the prefix and what it announces.
pub open spec fn framed(b: Seq<u8>) -> Option<Seq<u8>> {
    if b.len() < 4 {
        None
    } else {
        let n = spec_u32_from_le_bytes(b.subrange(0, 4)) as nat;
        if b.len() - 4 < n {
            None
        } else {
            Some(b.subrange(4, 4 + n as int))
        }
    }
}

/// Decoding of a value of type `t` from the start of `b`: the value and the
/// number of bytes consumed.
pub open spec fn dec(b: Seq<u8>, t: Ty, nested: bool) -> Result<(Val, nat), DecodeError>
    decreases t, 1nat, if nested { 1nat } else { 0nat },
{
    match t {
        Ty::U32 => if b.len() < 4 {
            Err(DecodeError::OutOfData)
        } else {
            Ok((Val::U32(spec_u32_from_le_bytes(b.subrange(0, 4))), 4))
        },
        Ty::U64 => if b.len() < 8 {
            Err(DecodeError::OutOfData)
        } else {
            Ok((Val::U64(spec_u64_from_le_bytes(b.subrange(0, 8))), 8))
        },
        Ty::U128 => if b.len() < 16 {
            Err(DecodeError::OutOfData)
        } else {
            Ok((Val::U128(spec_u128_from_le_bytes(b.subrange(0, 16))), 16))
        },
        Ty::AccountId => if b.len() < 8 {
            Err(DecodeError::OutOfData)
        } else {
            Ok((Val::AccountId(spec_u64_from_le_bytes(b.subrange(0, 8))), 8))
        },
        _ => if nested {
            match framed(b) {
                None => Err(DecodeError::OutOfData),
                Some(body) => match dec(body, t, false) {
                    Ok((v, _)) => Ok((v, 4 + body.len())),
                    Err(e) => Err(e),
                },
            }
        } else {
            match t {
                Ty::Str => if utf8_valid(b) {
                    Ok((Val::Str(b), b.len()))
                } else {
                    Err(DecodeError::InvalidData)
                },
                Ty::Struct(fts) => match dec_fields(b, t, 0) {
                    Ok((fs, n)) => Ok((Val::Struct(fs), n)),
                    Err(e) => Err(e),
                },
                Ty::List(et) => if b.len() < 4 {
                    Err(DecodeError::OutOfData)
                } else {
                    let count = spec_u32_from_le_bytes(b.subrange(0, 4)) as nat;
                    match dec_elems(b.subrange(4, b.len() as int), t, count) {
                        Ok((es, n)) => Ok((Val::List(es), 4 + n)),
                        Err(e) => Err(e),
                    }
                },
                _ => Err(DecodeError::InvalidData),
            }
        }
    }
}

/// The field types of a struct type.
pub open spec fn field_types(t: Ty) -> Seq<Ty> {
    match t {
        Ty::Struct(fts) => fts,
        _ => seq![],
    }
}

/// The element type of a list type.
pub open spec fn elem_type(t: Ty) -> Ty {
    match t {
        Ty::List(et) => *et,
        _ => Ty::U32,
    }
}

/// Decoding of the fields of struct type `t` from index `i` on, each nested.
pub open spec fn dec_fields(b: Seq<u8>, t: Ty, i: nat) -> Result<(Seq<Val>, nat), DecodeError>
    decreases t, 0nat, field_types(t).len() - i,
{
    if i < field_types(t).len() {
        match dec(b, field_types(t)[i as int], true) {
            Ok((v, n)) => prepend(seq![v], n, dec_fields(b.subrange(n as int, b.len() as int), t, i + 1)),
            Err(e) => Err(e),
        }
    } else {
        Ok((seq![], 0))
    }
}

/// Decoding of `k` elements of list type `t`, each nested.
pub open spec fn dec_elems(b: Seq<u8>, t: Ty, k: nat) -> Result<(Seq<Val>, nat), DecodeError>
    decreases t, 0nat, k,
{
    if k > 0 && t is List {
        match dec(b, elem_type(t), true) {
            Ok((v, n)) => prepend(seq![v], n, dec_elems(b.subrange(n as int, b.len() as int), t, (k - 1) as nat)),
            Err(e) => Err(e),
        }
    } else {
        Ok((seq![], 0))
    }
}

} // verus!
