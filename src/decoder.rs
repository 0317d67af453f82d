use vstd::prelude::*;
use vstd::bytes::*;
use vstd::slice::{slice_subrange, slice_to_vec};

use crate::codec::{dec, dec_elems, dec_fields, elem_type, field_types, framed, is_utf8, prepend, DecodeError};
use crate::value::{lemma_views_push, views, AccountId, SchemaType, Val, Value};

verus! {

/// The bytes of `buf` from `start` to `end`.
pub open spec fn window(buf: Seq<u8>, start: usize, end: usize) -> Seq<u8> {
    buf.subrange(start as int, end as int)
}

/// Decodes a value of type `ty` that is the whole payload `input`.
pub fn decode_value(input: &[u8], ty: &SchemaType) -> (r: Result<Value, DecodeError>)
    ensures
        match r {
            Ok(v) => dec(input@, ty@, false) is Ok && dec(input@, ty@, false)->Ok_0.0 == v@,
            Err(e) => dec(input@, ty@, false) == Err::<(Val, nat), DecodeError>(e),
        },
{
    let len = input.len();
    proof { assert(window(input@, 0, len) =~= input@); }
    match decode_at(input, 0, len, ty, false) {
        Ok((v, _)) => Ok(v),
        Err(e) => Err(e),
    }
}

/// Reads a little-endian `u32` at `start`.
fn read_u32(buf: &[u8], start: usize) -> (r: u32)
    requires
        start + 4 <= buf@.len(),
    ensures
        r == spec_u32_from_le_bytes(buf@.subrange(start as int, start + 4)),
{
    let len = buf.len();
    assert(start + 4 <= len);
    u32_from_le_bytes(slice_subrange(buf, start, start + 4))
}

/// Decodes one value of type `ty` from `buf[start..end]`: the value and the
/// number of bytes consumed. `nested` selects the framing of a field or list
/// element; otherwise the window is the whole payload.
pub fn decode_at(buf: &[u8], start: usize, end: usize, ty: &SchemaType, nested: bool) -> (r: Result<
    (Value, usize),
    DecodeError,
>)
    requires
        start <= end <= buf@.len(),
    ensures
        match r {
            Ok((v, n)) => dec(window(buf@, start, end), ty@, nested) == Ok::<(Val, nat), DecodeError>((v@, n as nat))
                && n <= end - start,
            Err(e) => dec(window(buf@, start, end), ty@, nested) == Err::<(Val, nat), DecodeError>(e),
        },
    decreases ty@, 1nat, if nested { 1nat } else { 0nat },
{
    let ghost b = window(buf@, start, end);
    let len = end - start;
    match ty {
        SchemaType::U32 => {
            if len < 4 {
                return Err(DecodeError::OutOfData);
            }
            let x = read_u32(buf, start);
            proof { assert(b.subrange(0, 4) =~= buf@.subrange(start as int, start + 4)); }
            return Ok((Value::U32(x), 4));
        },
        SchemaType::U64 => {
            if len < 8 {
                return Err(DecodeError::OutOfData);
            }
            let x = u64_from_le_bytes(slice_subrange(buf, start, start + 8));
            proof { assert(b.subrange(0, 8) =~= buf@.subrange(start as int, start + 8)); }
            return Ok((Value::U64(x), 8));
        },
        SchemaType::U128 => {
            if len < 16 {
                return Err(DecodeError::OutOfData);
            }
            let x = u128_from_le_bytes(slice_subrange(buf, start, start + 16));
            proof { assert(b.subrange(0, 16) =~= buf@.subrange(start as int, start + 16)); }
            return Ok((Value::U128(x), 16));
        },
        SchemaType::AccountId => {
            if len < 8 {
                return Err(DecodeError::OutOfData);
            }
            let x = u64_from_le_bytes(slice_subrange(buf, start, start + 8));
            proof { assert(b.subrange(0, 8) =~= buf@.subrange(start as int, start + 8)); }
            return Ok((Value::AccountId(AccountId { id: x }), 8));
        },
        _ => {},
    }
    if nested {
        if len < 4 {
            return Err(DecodeError::OutOfData);
        }
        let n = read_u32(buf, start) as usize;
        proof { assert(b.subrange(0, 4) =~= buf@.subrange(start as int, start + 4)); }
        if len - 4 < n {
            return Err(DecodeError::OutOfData);
        }
        proof {
            assert(framed(b) == Some(window(buf@, (start + 4) as usize, (start + 4 + n) as usize)));
        }
        return match decode_at(buf, start + 4, start + 4 + n, ty, false) {
            Ok((v, _)) => Ok((v, 4 + n)),
            Err(e) => Err(e),
        };
    }
    match ty {
        SchemaType::Str => {
            let s = slice_subrange(buf, start, end);
            if is_utf8(s) {
                Ok((Value::Str(slice_to_vec(s)), len))
            } else {
                Err(DecodeError::InvalidData)
            }
        },
        SchemaType::Struct(st) => {
            let mut pos = start;
            let mut vals: Vec<Value> = Vec::new();
            let mut i: usize = 0;
            while i < st.fields.len()
                invariant
                    start <= pos <= end <= buf@.len(),
                    i <= st.fields.len(),
                    !nested,
                    b == window(buf@, start, end),
                    *ty == SchemaType::Struct(*st),
                    field_types(ty@).len() == st.fields.len(),
                    dec_fields(b, ty@, 0) == prepend(views(vals@), (pos - start) as nat, dec_fields(window(buf@, pos, end), ty@, i as nat)),
                decreases st.fields.len() - i,
            {
                let ghost w = window(buf@, pos, end);
                proof {
                    assert(field_types(ty@)[i as int] == st.fields@[i as int].ty@);
                }
                match decode_at(buf, pos, end, &st.fields[i].ty, true) {
                    Ok((v, n)) => {
                        proof {
                            assert(w.subrange(n as int, w.len() as int) =~= window(buf@, (pos + n) as usize, end));
                            let rest = dec_fields(window(buf@, (pos + n) as usize, end), ty@, (i + 1) as nat);
                            lemma_views_push(vals@, v);
                            assert(views(vals@.push(v)) =~= views(vals@) + seq![v@]);
                            match rest {
                                Ok((ws, m)) => {
                                    assert(views(vals@) + (seq![v@] + ws) =~= views(vals@.push(v)) + ws);
                                },
                                Err(_) => {},
                            }
                        }
                        vals.push(v);
                        pos = pos + n;
                        i = i + 1;
                    },
                    Err(e) => {
                        return Err(e);
                    },
                }
            }
            let r = Value::Struct(vals);
            proof {
            }
            Ok((r, pos - start))
        },
        SchemaType::List(et) => {
            if len < 4 {
                return Err(DecodeError::OutOfData);
            }
            let count = read_u32(buf, start);
            proof { assert(b.subrange(0, 4) =~= buf@.subrange(start as int, start + 4)); }
            let mut pos = start + 4;
            let mut vals: Vec<Value> = Vec::new();
            let mut k: u32 = 0;
            proof {
                assert(b.subrange(4, b.len() as int) =~= window(buf@, pos, end));
            }
            while k < count
                invariant
                    start + 4 <= pos <= end <= buf@.len(),
                    k <= count,
                    !nested,
                    b == window(buf@, start, end),
                    *ty == SchemaType::List(*et),
                    elem_type(ty@) == (**et)@,
                    b.len() >= 4,
                    count == spec_u32_from_le_bytes(b.subrange(0, 4)),
                    b.subrange(4, b.len() as int) == window(buf@, (start + 4) as usize, end),
                    dec_elems(window(buf@, (start + 4) as usize, end), ty@, count as nat) == prepend(
                        views(vals@),
                        (pos - start - 4) as nat,
                        dec_elems(window(buf@, pos, end), ty@, (count - k) as nat),
                    ),
                decreases count - k,
            {
                let ghost w = window(buf@, pos, end);
                match decode_at(buf, pos, end, et, true) {
                    Ok((v, n)) => {
                        proof {
                            assert(w.subrange(n as int, w.len() as int) =~= window(buf@, (pos + n) as usize, end));
                            let rest = dec_elems(window(buf@, (pos + n) as usize, end), ty@, (count - k - 1) as nat);
                            lemma_views_push(vals@, v);
                            assert(views(vals@.push(v)) =~= views(vals@) + seq![v@]);
                            match rest {
                                Ok((ws, m)) => {
                                    assert(views(vals@) + (seq![v@] + ws) =~= views(vals@.push(v)) + ws);
                                },
                                Err(_) => {},
                            }
                        }
                        vals.push(v);
                        pos = pos + n;
                        k = k + 1;
                    },
                    Err(e) => {
                        return Err(e);
                    },
                }
            }
            let r = Value::List(vals);
            proof {
            }
            Ok((r, pos - start))
        },
        _ => {
            proof { assert(false); }
            Err(DecodeError::InvalidData)
        },
    }
}

} // verus!
