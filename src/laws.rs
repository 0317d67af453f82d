use vstd::prelude::*;
use vstd::bytes::*;

use crate::codec::{children, dec, dec_elems, dec_fields, elem_type, enc, enc_children, encodable, field_types, framed, has_type, is_scalar, max_frame};
use crate::codec::DecodeError;
use crate::value::{Ty, Val};

verus! {

proof fn lemma_bytes()
    ensures
        forall|x: u32| #[trigger] spec_u32_to_le_bytes(x).len() == 4 && spec_u32_from_le_bytes(spec_u32_to_le_bytes(x)) == x,
        forall|x: u64| #[trigger] spec_u64_to_le_bytes(x).len() == 8 && spec_u64_from_le_bytes(spec_u64_to_le_bytes(x)) == x,
        forall|x: u128| #[trigger] spec_u128_to_le_bytes(x).len() == 16 && spec_u128_from_le_bytes(spec_u128_to_le_bytes(x)) == x,
{
    lemma_auto_spec_u32_to_from_le_bytes();
    lemma_auto_spec_u64_to_from_le_bytes();
    lemma_auto_spec_u128_to_from_le_bytes();
}

/// A value written as a field or list element is read back, followed by any
/// bytes, and exactly its own bytes are consumed.
pub proof fn lemma_nested_round_trip(v: Val, t: Ty, rest: Seq<u8>)
    requires
        has_type(v, t),
        encodable(v),
    ensures
        dec(enc(v, true) + rest, t, true) == Ok::<(Val, nat), DecodeError>((v, enc(v, true).len())),
    decreases v, 2nat, 0nat,
{
    lemma_bytes();
    let b = enc(v, true) + rest;
    if is_scalar(v) {
        match v {
            Val::U32(x) => { assert(b.subrange(0, 4) =~= spec_u32_to_le_bytes(x)); },
            Val::U64(x) => { assert(b.subrange(0, 8) =~= spec_u64_to_le_bytes(x)); },
            Val::U128(x) => { assert(b.subrange(0, 16) =~= spec_u128_to_le_bytes(x)); },
            Val::AccountId(x) => { assert(b.subrange(0, 8) =~= spec_u64_to_le_bytes(x)); },
            _ => {},
        }
    } else {
        let body = enc(v, false);
        lemma_top_round_trip(v, t, seq![]);
        assert(body.len() <= max_frame());
        assert(b.subrange(0, 4) =~= spec_u32_to_le_bytes(body.len() as u32));
        assert(b.subrange(4, 4 + body.len() as int) =~= body);
        assert(body + seq![] =~= body);
        assert(framed(b) == Some(body));
    }
}

/// A struct or list written as the whole payload is read back, followed by any
/// bytes; so is a string or scalar when nothing follows it.
pub proof fn lemma_top_round_trip(v: Val, t: Ty, rest: Seq<u8>)
    requires
        has_type(v, t),
        encodable(v),
        v is Str ==> rest.len() == 0,
    ensures
        dec(enc(v, false) + rest, t, false) == Ok::<(Val, nat), DecodeError>((v, enc(v, false).len())),
    decreases v, 1nat, 0nat,
{
    lemma_bytes();
    let b = enc(v, false) + rest;
    match v {
        Val::U32(x) => { assert(b.subrange(0, 4) =~= spec_u32_to_le_bytes(x)); },
        Val::U64(x) => { assert(b.subrange(0, 8) =~= spec_u64_to_le_bytes(x)); },
        Val::U128(x) => { assert(b.subrange(0, 16) =~= spec_u128_to_le_bytes(x)); },
        Val::AccountId(x) => { assert(b.subrange(0, 8) =~= spec_u64_to_le_bytes(x)); },
        Val::Str(s) => { assert(b =~= s); },
        Val::Struct(fs) => {
            lemma_children_round_trip(v, t, 0, rest);
            assert(fs.subrange(0, fs.len() as int) =~= fs);
        },
        Val::List(es) => {
            lemma_children_round_trip(v, t, 0, rest);
            assert(es.subrange(0, es.len() as int) =~= es);
            assert(b.subrange(0, 4) =~= spec_u32_to_le_bytes(es.len() as u32));
            assert(b.subrange(4, b.len() as int) =~= enc_children(v, 0) + rest);
        },
    }
}

proof fn lemma_children_round_trip(v: Val, t: Ty, i: nat, rest: Seq<u8>)
    requires
        has_type(v, t),
        encodable(v),
        v is Struct || v is List,
        i <= children(v).len(),
    ensures
        v is Struct ==> dec_fields(enc_children(v, i) + rest, t, i) == Ok::<(Seq<Val>, nat), DecodeError>(
            (children(v).subrange(i as int, children(v).len() as int), enc_children(v, i).len()),
        ),
        v is List ==> dec_elems(enc_children(v, i) + rest, t, (children(v).len() - i) as nat) == Ok::<
            (Seq<Val>, nat),
            DecodeError,
        >((children(v).subrange(i as int, children(v).len() as int), enc_children(v, i).len())),
    decreases v, 0nat, children(v).len() - i,
{
    let cs = children(v);
    if i < cs.len() {
        let c = cs[i as int];
        let ct = if v is Struct { field_types(t)[i as int] } else { elem_type(t) };
        assert(has_type(c, ct));
        assert(encodable(c));
        let tail = enc_children(v, i + 1) + rest;
        lemma_nested_round_trip(c, ct, tail);
        lemma_children_round_trip(v, t, i + 1, rest);
        let b = enc_children(v, i) + rest;
        assert(b =~= enc(c, true) + tail);
        let n = enc(c, true).len();
        assert(b.subrange(n as int, b.len() as int) =~= tail);
        assert(seq![c] + cs.subrange(i + 1 as int, cs.len() as int) =~= cs.subrange(i as int, cs.len() as int));
    } else {
        assert(cs.subrange(i as int, cs.len() as int) =~= Seq::<Val>::empty());
    }
}

/// A struct whose first field is a list of strings and whose second is a
/// `u64`: the second field decodes to its own value whatever the list holds,
/// as the list's length prefix skips exactly the list's bytes.
pub proof fn lemma_scalar_after_framed_list(names: Val, x: u64)
    requires
        has_type(names, Ty::List(Box::new(Ty::Str))),
        encodable(Val::Struct(seq![names, Val::U64(x)])),
    ensures
        dec(
            enc(Val::Struct(seq![names, Val::U64(x)]), false),
            Ty::Struct(seq![Ty::List(Box::new(Ty::Str)), Ty::U64]),
            false,
        ) matches Ok((Val::Struct(fs), _)) && fs.len() == 2 && fs[0] == names && fs[1] == Val::U64(x),
{
    let v = Val::Struct(seq![names, Val::U64(x)]);
    let t = Ty::Struct(seq![Ty::List(Box::new(Ty::Str)), Ty::U64]);
    assert(has_type(v, t)) by {
        let fs = seq![names, Val::U64(x)];
        let fts = seq![Ty::List(Box::new(Ty::Str)), Ty::U64];
        assert(has_type(fs[0], fts[0]));
        assert(has_type(fs[1], fts[1]));
        assert(forall|i: int| 0 <= i < 2 ==> has_type(#[trigger] fs[i], fts[i]));
    }
    lemma_top_round_trip(v, t, seq![]);
    assert(enc(v, false) + seq![] =~= enc(v, false));
}

/// `p` is a proper prefix of `b`.
pub open spec fn proper_prefix(p: Seq<u8>, b: Seq<u8>) -> bool {
    p.len() < b.len() && p == b.subrange(0, p.len() as int)
}

/// A proper prefix of a field or list element's encoding does not decode.
pub proof fn lemma_nested_truncated(v: Val, t: Ty, p: Seq<u8>)
    requires
        has_type(v, t),
        encodable(v),
        proper_prefix(p, enc(v, true)),
    ensures
        dec(p, t, true) is Err,
{
    lemma_bytes();
    if !is_scalar(v) && p.len() >= 4 {
        let body = enc(v, false);
        assert(body.len() <= max_frame());
        assert(p.subrange(0, 4) =~= spec_u32_to_le_bytes(body.len() as u32));
    }
}

/// Any proper prefix of the encoding of a struct, list or scalar payload fails
/// to decode, with `OutOfData` or `InvalidData`.
pub proof fn lemma_top_truncated(v: Val, t: Ty, p: Seq<u8>)
    requires
        has_type(v, t),
        encodable(v),
        !(v is Str),
        proper_prefix(p, enc(v, false)),
    ensures
        dec(p, t, false) == Err::<(Val, nat), DecodeError>(DecodeError::OutOfData) || dec(p, t, false) == Err::<
            (Val, nat),
            DecodeError,
        >(DecodeError::InvalidData),
{
    lemma_bytes();
    match v {
        Val::Struct(fs) => {
            lemma_children_truncated(v, t, 0, p);
        },
        Val::List(es) => {
            if p.len() >= 4 {
                let b = enc(v, false);
                assert(p.subrange(0, 4) =~= b.subrange(0, 4));
                assert(b.subrange(0, 4) =~= spec_u32_to_le_bytes(es.len() as u32));
                let q = p.subrange(4, p.len() as int);
                assert(q =~= enc_children(v, 0).subrange(0, q.len() as int));
                lemma_children_truncated(v, t, 0, q);
            }
        },
        _ => {},
    }
}

proof fn lemma_children_truncated(v: Val, t: Ty, i: nat, p: Seq<u8>)
    requires
        has_type(v, t),
        encodable(v),
        v is Struct || v is List,
        i <= children(v).len(),
        proper_prefix(p, enc_children(v, i)),
    ensures
        v is Struct ==> dec_fields(p, t, i) == Err::<(Seq<Val>, nat), DecodeError>(DecodeError::OutOfData)
            || dec_fields(p, t, i) == Err::<(Seq<Val>, nat), DecodeError>(DecodeError::InvalidData),
        v is List ==> dec_elems(p, t, (children(v).len() - i) as nat) == Err::<(Seq<Val>, nat), DecodeError>(
            DecodeError::OutOfData,
        ) || dec_elems(p, t, (children(v).len() - i) as nat) == Err::<(Seq<Val>, nat), DecodeError>(
            DecodeError::InvalidData,
        ),
    decreases children(v).len() - i,
{
    let cs = children(v);
    if i < cs.len() {
        let c = cs[i as int];
        let ct = if v is Struct { field_types(t)[i as int] } else { elem_type(t) };
        assert(has_type(c, ct));
        assert(encodable(c));
        let e = enc(c, true);
        let b = enc_children(v, i);
        assert(b == e + enc_children(v, i + 1));
        if p.len() < e.len() {
            assert(p =~= e.subrange(0, p.len() as int));
            lemma_nested_truncated(c, ct, p);
            lemma_errors(p, ct, true);
        } else {
            let q = p.subrange(e.len() as int, p.len() as int);
            assert(p =~= e + q);
            assert(q =~= enc_children(v, i + 1).subrange(0, q.len() as int));
            lemma_nested_round_trip(c, ct, q);
            lemma_children_truncated(v, t, i + 1, q);
        }
    } else {
        assert(enc_children(v, i) =~= Seq::<u8>::empty());
    }
}

/// Whether a decode error is one that malformed data causes.
pub open spec fn data_error(e: DecodeError) -> bool {
    e == DecodeError::OutOfData || e == DecodeError::InvalidData
}

proof fn lemma_errors(b: Seq<u8>, t: Ty, nested: bool)
    ensures
        dec(b, t, nested) matches Err(e) ==> data_error(e),
    decreases t, 1nat, if nested { 1nat } else { 0nat },
{
    match t {
        Ty::U32 | Ty::U64 | Ty::U128 | Ty::AccountId => {},
        _ => {
            if nested {
                if let Some(body) = framed(b) {
                    lemma_errors(body, t, false);
                }
            } else {
                match t {
                    Ty::Struct(_) => lemma_fields_errors(b, t, 0),
                    Ty::List(_) => {
                        if b.len() >= 4 {
                            let count = spec_u32_from_le_bytes(b.subrange(0, 4)) as nat;
                            lemma_elems_errors(b.subrange(4, b.len() as int), t, count);
                        }
                    },
                    _ => {},
                }
            }
        },
    }
}

proof fn lemma_fields_errors(b: Seq<u8>, t: Ty, i: nat)
    ensures
        dec_fields(b, t, i) matches Err(e) ==> data_error(e),
    decreases t, 0nat, field_types(t).len() - i,
{
    if i < field_types(t).len() {
        lemma_errors(b, field_types(t)[i as int], true);
        if let Ok((v, n)) = dec(b, field_types(t)[i as int], true) {
            lemma_fields_errors(b.subrange(n as int, b.len() as int), t, i + 1);
        }
    }
}

proof fn lemma_elems_errors(b: Seq<u8>, t: Ty, k: nat)
    ensures
        dec_elems(b, t, k) matches Err(e) ==> data_error(e),
    decreases t, 0nat, k,
{
    if k > 0 && t is List {
        lemma_errors(b, elem_type(t), true);
        if let Ok((v, n)) = dec(b, elem_type(t), true) {
            lemma_elems_errors(b.subrange(n as int, b.len() as int), t, (k - 1) as nat);
        }
    }
}

} // verus!
