use vstd::prelude::*;
use vstd::bytes::*;

use crate::codec::{children, enc, enc_children, encodable, frame, is_scalar, max_frame};
use crate::value::{lemma_views_index, views, Val, Value};

verus! {

/// The children of a container value are the models of its elements.
proof fn lemma_children_of(v: &Value)
    ensures
        match *v {
            Value::Struct(fs) => children(v@) == views(fs@),
            Value::List(es) => children(v@) == views(es@),
            _ => children(v@) == Seq::<Val>::empty(),
        },
{
}

/// Encodes `v` as a whole payload.
pub fn encode_value(v: &Value) -> (r: Vec<u8>)
    requires
        encodable(v@),
    ensures
        r@ == enc(v@, false),
{
    let mut out: Vec<u8> = Vec::new();
    encode_into(v, false, &mut out);
    assert(out@ =~= enc(v@, false));
    out
}

/// Appends `bytes` to `out`.
fn append_bytes(out: &mut Vec<u8>, bytes: Vec<u8>)
    ensures
        final(out)@ == old(out)@ + bytes@,
{
    let mut b = bytes;
    out.append(&mut b);
}

/// Appends the encoding of `v` to `out`, framed where `nested` asks for it.
pub fn encode_into(v: &Value, nested: bool, out: &mut Vec<u8>)
    requires
        encodable(v@),
    ensures
        final(out)@ == old(out)@ + enc(v@, nested),
    decreases v, if nested { 1nat } else { 0nat },
{
    if nested && !is_scalar_value(v) {
        let mut body: Vec<u8> = Vec::new();
        encode_into(v, false, &mut body);
        assert(body@ == enc(v@, false));
        proof { lemma_auto_spec_u32_to_from_le_bytes(); }
        assert(body@.len() <= max_frame());
        let n = body.len() as u32;
        append_bytes(out, u32_to_le_bytes(n));
        append_bytes(out, body);
        assert(enc(v@, nested) == frame(enc(v@, false)));
        assert(old(out)@ + spec_u32_to_le_bytes(n) + enc(v@, false) =~= old(out)@ + enc(v@, nested));
        return;
    }
    match v {
        Value::U32(x) => append_bytes(out, u32_to_le_bytes(*x)),
        Value::U64(x) => append_bytes(out, u64_to_le_bytes(*x)),
        Value::U128(x) => append_bytes(out, u128_to_le_bytes(*x)),
        Value::AccountId(a) => append_bytes(out, u64_to_le_bytes(a.id)),
        Value::Str(b) => {
            let mut i: usize = 0;
            let ghost o = out@;
            while i < b.len()
                invariant
                    i <= b@.len(),
                    out@ == o + b@.subrange(0, i as int),
                decreases b@.len() - i,
            {
                out.push(b[i]);
                i = i + 1;
                assert(out@ =~= o + b@.subrange(0, i as int));
            }
            assert(b@.subrange(0, i as int) =~= b@);
        },
        Value::Struct(fs) => {
            encode_children(v, out);
        },
        Value::List(es) => {
            proof {
                lemma_children_of(v);
                lemma_views_index(es@, es@.len());
            }
            let n = es.len() as u32;
            let ghost o = out@;
            append_bytes(out, u32_to_le_bytes(n));
            encode_children(v, out);
            assert(out@ =~= o + enc(v@, nested));
        },
    }
}

fn is_scalar_value(v: &Value) -> (r: bool)
    ensures
        r == is_scalar(v@),
{
    match v {
        Value::Str(_) | Value::Struct(_) | Value::List(_) => false,
        _ => true,
    }
}

/// Appends the nested encodings of the elements of container `v`.
fn encode_children(v: &Value, out: &mut Vec<u8>)
    requires
        encodable(v@),
        v@ is Struct || v@ is List,
    ensures
        final(out)@ == old(out)@ + enc_children(v@, 0),
    decreases v, 0nat, 0nat,
{
    let cs = match v {
        Value::Struct(fs) => fs,
        Value::List(es) => es,
        _ => {
            return;
        },
    };
    proof { lemma_children_of(v); }
    proof { lemma_views_index(cs@, cs@.len()); }
    let mut i: usize = 0;
    while i < cs.len()
        invariant
            i <= cs@.len(),
            encodable(v@),
            v@ is Struct || v@ is List,
            *v == Value::Struct(*cs) || *v == Value::List(*cs),
            children(v@) == views(cs@),
            views(cs@).len() == cs@.len(),
            forall|j: int| 0 <= j < cs@.len() ==> #[trigger] views(cs@)[j] == cs@[j]@,
            out@ + enc_children(v@, i as nat) == old(out)@ + enc_children(v@, 0),
        decreases cs@.len() - i,
    {
        let ghost o = out@;
        assert(children(v@)[i as int] == cs@[i as int]@);
        assert(encodable(cs@[i as int]@));
        proof {
            assert(decreases_to!(*cs => cs[i as int]));
            assert(decreases_to!(*v => *cs));
            assert(decreases_to!(*v => cs[i as int]));
        }
        encode_into(&cs[i], true, out);
        assert(o + enc_children(v@, i as nat) =~= out@ + enc_children(v@, (i + 1) as nat));
        i = i + 1;
    }
    assert(enc_children(v@, i as nat) =~= Seq::<u8>::empty());
    assert(out@ =~= old(out)@ + enc_children(v@, 0));
}

} // verus!
