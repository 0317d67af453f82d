use vstd::prelude::*;

use crate::codec::{DecodeError, EncodeError};

verus! {

/// The type of one field of a composite key.
#[derive(Clone, Copy, Debug, PartialEq, Eq, Structural)]
pub enum KeyKind {
    U32,
    U64,
    U128,
}

/// One field of a composite key.
#[derive(Clone, Copy, Debug, PartialEq, Eq, Structural)]
pub enum KeyField {
    U32(u32),
    U64(u64),
    U128(u128),
}

/// The most fields a composite key has.
pub const MAX_ARITY: usize = 4;

/// Powers of 256.
pub open spec fn pow256(n: nat) -> nat
    decreases n,
{
    if n == 0 {
        1
    } else {
        256 * pow256((n - 1) as nat)
    }
}

/// The `n` low bytes of `v`, most significant first.
pub open spec fn be_bytes(v: nat, n: nat) -> Seq<u8>
    decreases n,
{
    if n == 0 {
        seq![]
    } else {
        be_bytes(v / 256, (n - 1) as nat).push((v % 256) as u8)
    }
}

/// The number that bytes stand for, most significant first.
pub open spec fn be_value(s: Seq<u8>) -> nat
    decreases s.len(),
{
    if s.len() == 0 {
        0
    } else {
        be_value(s.drop_last()) * 256 + s.last() as nat
    }
}

/// The width in bytes of a key field of kind `k`.
pub open spec fn kind_width(k: KeyKind) -> nat {
    match k {
        KeyKind::U32 => 4,
        KeyKind::U64 => 8,
        KeyKind::U128 => 16,
    }
}

/// The kind of a key field.
pub open spec fn kind_of(f: KeyField) -> KeyKind {
    match f {
        KeyField::U32(_) => KeyKind::U32,
        KeyField::U64(_) => KeyKind::U64,
        KeyField::U128(_) => KeyKind::U128,
    }
}

/// The number a key field holds.
pub open spec fn field_value(f: KeyField) -> nat {
    match f {
        KeyField::U32(x) => x as nat,
        KeyField::U64(x) => x as nat,
        KeyField::U128(x) => x as nat,
    }
}

/// The key field of kind `k` that holds `v`.
pub open spec fn field_of(k: KeyKind, v: nat) -> KeyField {
    match k {
        KeyKind::U32 => KeyField::U32(v as u32),
        KeyKind::U64 => KeyField::U64(v as u64),
        KeyKind::U128 => KeyField::U128(v as u128),
    }
}

/// The encoding of one key field: fixed width, most significant byte first.
/// The same bytes serve in terminal and non-terminal position.
pub open spec fn field_bytes(f: KeyField) -> Seq<u8> {
    be_bytes(field_value(f), kind_width(kind_of(f)))
}

/// The encoding of a composite key: its fields' encodings in order.
pub open spec fn key_bytes(ks: Seq<KeyField>) -> Seq<u8>
    decreases ks.len(),
{
    if ks.len() == 0 {
        seq![]
    } else {
        key_bytes(ks.drop_last()) + field_bytes(ks.last())
    }
}

/// The total width of keys of the given kinds.
pub open spec fn kinds_width(kinds: Seq<KeyKind>) -> nat
    decreases kinds.len(),
{
    if kinds.len() == 0 {
        0
    } else {
        kinds_width(kinds.drop_last()) + kind_width(kinds.last())
    }
}

/// The kinds of a key's fields.
pub open spec fn kinds_of(ks: Seq<KeyField>) -> Seq<KeyKind> {
    ks.map_values(|f: KeyField| kind_of(f))
}

/// The fields that bytes `b` hold as a key of the given kinds, where `b` has
/// exactly their total width.
pub open spec fn key_fields_of(b: Seq<u8>, kinds: Seq<KeyKind>) -> Seq<KeyField>
    decreases kinds.len(),
{
    if kinds.len() == 0 {
        seq![]
    } else {
        let pre = kinds_width(kinds.drop_last());
        key_fields_of(b.subrange(0, pre as int), kinds.drop_last()).push(
            field_of(kinds.last(), be_value(b.subrange(pre as int, b.len() as int))),
        )
    }
}

/// Decoding of a composite key of the given kinds from all of `b`.
pub open spec fn decode_key(b: Seq<u8>, kinds: Seq<KeyKind>) -> Result<Seq<KeyField>, DecodeError> {
    if b.len() < kinds_width(kinds) {
        Err(DecodeError::OutOfData)
    } else if b.len() > kinds_width(kinds) {
        Err(DecodeError::TrailingBytes)
    } else {
        Ok(key_fields_of(b, kinds))
    }
}


/// A composite key: between zero and `MAX_ARITY` fields. Every field but the
/// last is written in its non-terminal form, the last in its terminal form.
#[derive(Debug)]
pub struct ObjectKey {
    pub fields: Vec<KeyField>,
}

impl View for ObjectKey {
    type V = Seq<KeyField>;

    open spec fn view(&self) -> Seq<KeyField> {
        self.fields@
    }
}

proof fn lemma_be_len(v: nat, n: nat)
    ensures
        be_bytes(v, n).len() == n,
    decreases n,
{
    if n > 0 {
        lemma_be_len(v / 256, (n - 1) as nat);
    }
}

proof fn lemma_be_value_bound(s: Seq<u8>)
    ensures
        be_value(s) < pow256(s.len()),
    decreases s.len(),
{
    if s.len() > 0 {
        lemma_be_value_bound(s.drop_last());
        let h = be_value(s.drop_last());
        let p = pow256((s.len() - 1) as nat);
        assert(h * 256 + s.last() < 256 * p) by (nonlinear_arith)
            requires
                h < p,
                s.last() < 256,
        ;
    }
}

/// Reading back the big-endian bytes of a number that fits gives the number.
pub proof fn lemma_be_round_trip(v: nat, n: nat)
    requires
        v < pow256(n),
    ensures
        be_value(be_bytes(v, n)) == v,
        be_bytes(v, n).len() == n,
    decreases n,
{
    lemma_be_len(v, n);
    if n > 0 {
        let p = pow256((n - 1) as nat);
        assert(v / 256 < p) by (nonlinear_arith)
            requires
                v < 256 * p,
        ;
        lemma_be_round_trip(v / 256, (n - 1) as nat);
        let s = be_bytes(v, n);
        assert(s.drop_last() =~= be_bytes(v / 256, (n - 1) as nat));
        assert((v / 256) * 256 + v % 256 == v) by (nonlinear_arith);
    }
}

proof fn lemma_pow256_values()
    ensures
        pow256(4) == 0x1_0000_0000,
        pow256(8) == 0x1_0000_0000_0000_0000,
        pow256(15) == 0x100_0000_0000_0000_0000_0000_0000_0000,
        pow256(16) == 0x1_0000_0000_0000_0000_0000_0000_0000_0000,
{
    reveal_with_fuel(pow256, 17);
}

/// Appends the `n` low bytes of `v`, most significant first.
fn push_be(v: u128, n: usize, out: &mut Vec<u8>)
    requires
        n <= 16,
    ensures
        final(out)@ == old(out)@ + be_bytes(v as nat, n as nat),
    decreases n,
{
    if n > 0 {
        push_be(v / 256, n - 1, out);
        out.push((v % 256) as u8);
    }
}

/// Reads `n` bytes at `start` as a big-endian number.
fn read_be(buf: &[u8], start: usize, n: usize) -> (r: u128)
    requires
        n <= 16,
        start + n <= buf@.len(),
    ensures
        r as nat == be_value(buf@.subrange(start as int, start + n)),
    decreases n,
{
    if n == 0 {
        0
    } else {
        let hi = read_be(buf, start, n - 1);
        let ghost s = buf@.subrange(start as int, start + n);
        proof {
            assert(s.drop_last() =~= buf@.subrange(start as int, start + n - 1));
            lemma_be_value_bound(s.drop_last());
            lemma_pow256_values();
            lemma_pow256_mono((n - 1) as nat, 15);
            assert(s.drop_last().len() == n - 1);
            assert(hi < pow256((n - 1) as nat));
            assert(hi < 0x100_0000_0000_0000_0000_0000_0000_0000);
            assert(s.last() == buf@[start + n - 1]);
            assert(hi * 256 + 255 <= u128::MAX) by (nonlinear_arith)
                requires
                    hi < 0x100_0000_0000_0000_0000_0000_0000_0000,
            ;
        }
        let len = buf.len();
        assert(start + n <= len);
        let last = buf[start + n - 1] as u128;
        hi * 256 + last
    }
}

proof fn lemma_pow256_mono(a: nat, b: nat)
    requires
        a <= b,
    ensures
        pow256(a) <= pow256(b),
    decreases b,
{
    if a < b {
        lemma_pow256_mono(a, (b - 1) as nat);
    }
}

fn kind_width_exec(k: KeyKind) -> (r: usize)
    ensures
        r == kind_width(k),
{
    match k {
        KeyKind::U32 => 4,
        KeyKind::U64 => 8,
        KeyKind::U128 => 16,
    }
}

/// A key field's encoding has the width of its kind.
pub proof fn lemma_field_bytes(f: KeyField)
    ensures
        field_bytes(f).len() == kind_width(kind_of(f)),
        field_value(f) < pow256(kind_width(kind_of(f))),
        be_value(field_bytes(f)) == field_value(f),
        field_of(kind_of(f), field_value(f)) == f,
{
    lemma_pow256_values();
    lemma_be_round_trip(field_value(f), kind_width(kind_of(f)));
}

/// A key's encoding has the total width of its kinds.
pub proof fn lemma_key_len(ks: Seq<KeyField>)
    ensures
        key_bytes(ks).len() == kinds_width(kinds_of(ks)),
    decreases ks.len(),
{
    if ks.len() > 0 {
        lemma_key_len(ks.drop_last());
        lemma_field_bytes(ks.last());
        assert(kinds_of(ks).drop_last() =~= kinds_of(ks.drop_last()));
    }
}

impl ObjectKey {
    /// Whether the key has an arity that the layout supports.
    pub open spec fn wf(&self) -> bool {
        self.fields@.len() <= MAX_ARITY
    }

    /// The exact length of the key's encoding.
    pub fn out_size(&self) -> (r: usize)
        requires
            self.wf(),
        ensures
            r == key_bytes(self@).len(),
    {
        let mut total: usize = 0;
        let mut i: usize = 0;
        while i < self.fields.len()
            invariant
                i <= self.fields@.len() <= MAX_ARITY,
                total <= 16 * i,
                total == key_bytes(self@.take(i as int)).len(),
            decreases self.fields@.len() - i,
        {
            let f = self.fields[i];
            proof {
                lemma_field_bytes(f);
                assert(self@.take(i + 1 as int).drop_last() =~= self@.take(i as int));
            }
            total = total + kind_width_exec(key_kind(f));
            i = i + 1;
        }
        assert(self@.take(i as int) =~= self@);
        total
    }

    /// Appends the key's encoding to `out`.
    pub fn encode(&self, out: &mut Vec<u8>)
        ensures
            final(out)@ == old(out)@ + key_bytes(self@),
    {
        let ghost o = out@;
        let mut i: usize = 0;
        while i < self.fields.len()
            invariant
                i <= self.fields@.len(),
                out@ == o + key_bytes(self@.take(i as int)),
            decreases self.fields@.len() - i,
        {
            let f = self.fields[i];
            proof {
                assert(self@.take(i + 1 as int).drop_last() =~= self@.take(i as int));
            }
            match f {
                KeyField::U32(x) => push_be(x as u128, 4, out),
                KeyField::U64(x) => push_be(x as u128, 8, out),
                KeyField::U128(x) => push_be(x, 16, out),
            }
            i = i + 1;
            assert(out@ =~= o + key_bytes(self@.take(i as int)));
        }
        assert(self@.take(i as int) =~= self@);
    }
}

/// The total width of keys of the given kinds.
fn kinds_width_exec(kinds: &Vec<KeyKind>) -> (r: usize)
    requires
        kinds@.len() <= MAX_ARITY,
    ensures
        r == kinds_width(kinds@),
{
    let mut total: usize = 0;
    let mut i: usize = 0;
    while i < kinds.len()
        invariant
            i <= kinds@.len() <= MAX_ARITY,
            total <= 16 * i,
            total == kinds_width(kinds@.take(i as int)),
        decreases kinds@.len() - i,
    {
        proof {
            assert(kinds@.take(i + 1 as int).drop_last() =~= kinds@.take(i as int));
        }
        total = total + kind_width_exec(kinds[i]);
        i = i + 1;
    }
    assert(kinds@.take(i as int) =~= kinds@);
    total
}

/// Encodes a composite key into a buffer of exactly its `out_size`.
pub fn encode_object_key(key: &ObjectKey) -> (r: Result<Vec<u8>, EncodeError>)
    ensures
        r is Ok <==> key.wf(),
        r matches Ok(b) ==> b@ == key_bytes(key@),
{
    if key.fields.len() > MAX_ARITY {
        return Err(EncodeError::UnknownError);
    }
    let size = key.out_size();
    let mut out: Vec<u8> = Vec::with_capacity(size);
    key.encode(&mut out);
    assert(out@ =~= key_bytes(key@));
    Ok(out)
}

/// Decodes a composite key of the given field kinds from all of `input`.
pub fn decode_object_key(input: &[u8], kinds: &Vec<KeyKind>) -> (r: Result<ObjectKey, DecodeError>)
    requires
        kinds@.len() <= MAX_ARITY,
    ensures
        match r {
            Ok(k) => decode_key(input@, kinds@) == Ok::<Seq<KeyField>, DecodeError>(k@),
            Err(e) => decode_key(input@, kinds@) == Err::<Seq<KeyField>, DecodeError>(e),
        },
{
    let total = kinds_width_exec(kinds);
    if input.len() < total {
        return Err(DecodeError::OutOfData);
    }
    if input.len() > total {
        return Err(DecodeError::TrailingBytes);
    }
    let mut fields: Vec<KeyField> = Vec::new();
    let mut pos: usize = 0;
    let mut i: usize = 0;
    while i < kinds.len()
        invariant
            i <= kinds@.len() <= MAX_ARITY,
            input@.len() == total == kinds_width(kinds@),
            pos == kinds_width(kinds@.take(i as int)),
            pos <= total,
            fields@ == key_fields_of(input@.subrange(0, pos as int), kinds@.take(i as int)),
        decreases kinds@.len() - i,
    {
        let k = kinds[i];
        let w = kind_width_exec(k);
        proof {
            assert(kinds@.take(i + 1 as int).drop_last() =~= kinds@.take(i as int));
            lemma_kinds_width_prefix(kinds@, (i + 1) as nat);
        }
        let v = read_be(input, pos, w);
        proof {
            lemma_be_value_bound(input@.subrange(pos as int, pos + w));
            lemma_pow256_values();
        }
        let f = match k {
            KeyKind::U32 => KeyField::U32(v as u32),
            KeyKind::U64 => KeyField::U64(v as u64),
            KeyKind::U128 => KeyField::U128(v),
        };
        proof {
            let b = input@.subrange(0, pos + w);
            assert(b.subrange(0, pos as int) =~= input@.subrange(0, pos as int));
            assert(b.subrange(pos as int, b.len() as int) =~= input@.subrange(pos as int, pos + w));
        }
        fields.push(f);
        pos = pos + w;
        i = i + 1;
    }
    assert(kinds@.take(i as int) =~= kinds@);
    assert(input@.subrange(0, pos as int) =~= input@);
    Ok(ObjectKey { fields })
}

proof fn lemma_kinds_width_prefix(kinds: Seq<KeyKind>, n: nat)
    requires
        n <= kinds.len(),
    ensures
        kinds_width(kinds.take(n as int)) <= kinds_width(kinds),
    decreases kinds.len(),
{
    if n < kinds.len() {
        assert(kinds.drop_last().take(n as int) =~= kinds.take(n as int));
        lemma_kinds_width_prefix(kinds.drop_last(), n);
    } else {
        assert(kinds.take(n as int) =~= kinds);
    }
}

/// Byte-wise lexicographic order on byte strings of equal length.
pub open spec fn lex_lt(a: Seq<u8>, b: Seq<u8>) -> bool
    decreases a.len(),
{
    if a.len() == 0 || a.len() != b.len() {
        false
    } else {
        lex_lt(a.drop_last(), b.drop_last()) || (a.drop_last() == b.drop_last() && a.last() < b.last())
    }
}

/// Field-by-field order on keys of equal arity: an earlier field decides
/// before a later one.
pub open spec fn key_lt(k1: Seq<KeyField>, k2: Seq<KeyField>) -> bool
    decreases k1.len(),
{
    if k1.len() == 0 || k1.len() != k2.len() {
        false
    } else {
        key_lt(k1.drop_last(), k2.drop_last()) || (k1.drop_last() == k2.drop_last() && field_value(k1.last())
            < field_value(k2.last()))
    }
}

proof fn lemma_lex_concat(a1: Seq<u8>, a2: Seq<u8>, b1: Seq<u8>, b2: Seq<u8>)
    requires
        a1.len() == b1.len(),
        a2.len() == b2.len(),
    ensures
        lex_lt(a1 + a2, b1 + b2) == (lex_lt(a1, b1) || (a1 == b1 && lex_lt(a2, b2))),
    decreases a2.len(),
{
    if a2.len() == 0 {
        assert(a1 + a2 =~= a1);
        assert(b1 + b2 =~= b1);
    } else {
        lemma_lex_concat(a1, a2.drop_last(), b1, b2.drop_last());
        assert((a1 + a2).drop_last() =~= a1 + a2.drop_last());
        assert((b1 + b2).drop_last() =~= b1 + b2.drop_last());
        if a1 + a2.drop_last() == b1 + b2.drop_last() {
            assert(a1 =~= (a1 + a2.drop_last()).subrange(0, a1.len() as int));
            assert(b1 =~= (b1 + b2.drop_last()).subrange(0, b1.len() as int));
            assert(a2.drop_last() =~= (a1 + a2.drop_last()).subrange(a1.len() as int, (a1 + a2.drop_last()).len() as int));
            assert(b2.drop_last() =~= (b1 + b2.drop_last()).subrange(b1.len() as int, (b1 + b2.drop_last()).len() as int));
        }
    }
}

/// Big-endian bytes of a fixed width order as the numbers do.
pub proof fn lemma_be_order(v: nat, w: nat, n: nat)
    requires
        v < pow256(n),
        w < pow256(n),
    ensures
        lex_lt(be_bytes(v, n), be_bytes(w, n)) == (v < w),
    decreases n,
{
    lemma_be_len(v, n);
    lemma_be_len(w, n);
    if n > 0 {
        let p = pow256((n - 1) as nat);
        assert(v / 256 < p && w / 256 < p) by (nonlinear_arith)
            requires
                v < 256 * p,
                w < 256 * p,
        ;
        lemma_be_order(v / 256, w / 256, (n - 1) as nat);
        lemma_be_round_trip(v / 256, (n - 1) as nat);
        lemma_be_round_trip(w / 256, (n - 1) as nat);
        let bv = be_bytes(v, n);
        let bw = be_bytes(w, n);
        assert(bv.drop_last() =~= be_bytes(v / 256, (n - 1) as nat));
        assert(bw.drop_last() =~= be_bytes(w / 256, (n - 1) as nat));
    }
}

/// Encoding a key and decoding it with its own kinds gives it back, with no
/// byte left over.
pub proof fn lemma_key_round_trip(ks: Seq<KeyField>)
    ensures
        decode_key(key_bytes(ks), kinds_of(ks)) == Ok::<Seq<KeyField>, DecodeError>(ks),
    decreases ks.len(),
{
    lemma_key_len(ks);
    if ks.len() > 0 {
        let init = ks.drop_last();
        lemma_key_round_trip(init);
        lemma_key_len(init);
        lemma_field_bytes(ks.last());
        assert(kinds_of(ks).drop_last() =~= kinds_of(init));
        let b = key_bytes(ks);
        let pre = key_bytes(init).len();
        assert(b.subrange(0, pre as int) =~= key_bytes(init));
        assert(b.subrange(pre as int, b.len() as int) =~= field_bytes(ks.last()));
        assert(key_fields_of(b, kinds_of(ks)) =~= ks);
    } else {
        assert(key_fields_of(key_bytes(ks), kinds_of(ks)) =~= ks);
    }
}

/// Two keys of the same kinds with the same encoding are the same key.
pub proof fn lemma_key_injective(k1: Seq<KeyField>, k2: Seq<KeyField>)
    requires
        kinds_of(k1) == kinds_of(k2),
        key_bytes(k1) == key_bytes(k2),
    ensures
        k1 == k2,
{
    lemma_key_round_trip(k1);
    lemma_key_round_trip(k2);
}

/// For keys of the same arity and field kinds, field-by-field order and
/// byte-wise order of the encodings agree.
pub proof fn lemma_key_order(k1: Seq<KeyField>, k2: Seq<KeyField>)
    requires
        kinds_of(k1) == kinds_of(k2),
    ensures
        key_lt(k1, k2) == lex_lt(key_bytes(k1), key_bytes(k2)),
    decreases k1.len(),
{
    assert(k1.len() == kinds_of(k1).len() && k2.len() == kinds_of(k2).len());
    if k1.len() > 0 {
        let i1 = k1.drop_last();
        let i2 = k2.drop_last();
        assert(kinds_of(i1) =~= kinds_of(k1).drop_last());
        assert(kinds_of(i2) =~= kinds_of(k2).drop_last());
        assert(kind_of(k1.last()) == kinds_of(k1).last());
        assert(kind_of(k2.last()) == kinds_of(k2).last());
        lemma_key_order(i1, i2);
        lemma_key_len(i1);
        lemma_key_len(i2);
        lemma_field_bytes(k1.last());
        lemma_field_bytes(k2.last());
        lemma_lex_concat(key_bytes(i1), field_bytes(k1.last()), key_bytes(i2), field_bytes(k2.last()));
        lemma_be_order(field_value(k1.last()), field_value(k2.last()), kind_width(kind_of(k1.last())));
        if key_bytes(i1) == key_bytes(i2) {
            lemma_key_injective(i1, i2);
        }
    } else {
        assert(key_bytes(k1) =~= Seq::<u8>::empty());
    }
}

/// The kind of a key field.
pub fn key_kind(f: KeyField) -> (r: KeyKind)
    ensures
        r == kind_of(f),
{
    match f {
        KeyField::U32(_) => KeyKind::U32,
        KeyField::U64(_) => KeyKind::U64,
        KeyField::U128(_) => KeyKind::U128,
    }
}

} // verus!
