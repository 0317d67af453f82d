use vstd::prelude::*;

verus! {

/// A 64-bit account identifier, opaque to the codec.
#[derive(Clone, Copy, Debug, PartialEq, Eq, Structural)]
pub struct AccountId {
    pub id: u64,
}

/// The semantic type of a schema field.
#[derive(Debug)]
pub enum SchemaType {
    U32,
    U64,
    U128,
    Str,
    AccountId,
    Struct(StructType),
    List(Box<SchemaType>),
}

/// A named field of a struct schema.
#[derive(Debug)]
pub struct Field {
    pub name: String,
    pub ty: SchemaType,
}

/// A struct schema: its fields in declaration order.
#[derive(Debug)]
pub struct StructType {
    pub name: String,
    pub fields: Vec<Field>,
}

/// A decoded or encodable value. Strings are held as their UTF-8 bytes.
#[derive(Debug, PartialEq, Eq)]
pub enum Value {
    U32(u32),
    U64(u64),
    U128(u128),
    Str(Vec<u8>),
    AccountId(AccountId),
    Struct(Vec<Value>),
    List(Vec<Value>),
}

/// Mathematical model of a value.
pub enum Val {
    U32(u32),
    U64(u64),
    U128(u128),
    Str(Seq<u8>),
    AccountId(u64),
    Struct(Seq<Val>),
    List(Seq<Val>),
}

/// Mathematical model of a schema type.
pub enum Ty {
    U32,
    U64,
    U128,
    Str,
    AccountId,
    Struct(Seq<Ty>),
    List(Box<Ty>),
}

/// The model of a value.
pub open spec fn model(v: Value) -> Val
    decreases v, 0nat,
{
    match v {
        Value::U32(x) => Val::U32(x),
        Value::U64(x) => Val::U64(x),
        Value::U128(x) => Val::U128(x),
        Value::Str(b) => Val::Str(b@),
        Value::AccountId(a) => Val::AccountId(a.id),
        Value::Struct(fs) => Val::Struct(models(fs@, fs@.len())),
        Value::List(es) => Val::List(models(es@, es@.len())),
    }
}

/// The models of the first `n` values of `s`.
pub open spec fn models(s: Seq<Value>, n: nat) -> Seq<Val>
    decreases s, n,
{
    if n == 0 || n > s.len() {
        seq![]
    } else {
        models(s, (n - 1) as nat).push(model(s[n - 1]))
    }
}

/// The models of a sequence of values.
pub open spec fn views(s: Seq<Value>) -> Seq<Val> {
    models(s, s.len())
}

proof fn lemma_models_prefix(s: Seq<Value>, v: Value, n: nat)
    requires
        n <= s.len(),
    ensures
        models(s.push(v), n) == models(s, n),
    decreases n,
{
    if n > 0 {
        lemma_models_prefix(s, v, (n - 1) as nat);
        assert(s.push(v)[n - 1] == s[n - 1]);
    }
}

/// Appending a value appends its model.
pub proof fn lemma_views_push(s: Seq<Value>, v: Value)
    ensures
        views(s.push(v)) == views(s).push(model(v)),
{
    lemma_models_prefix(s, v, s.len());
    assert(s.push(v)[s.len() as int] == v);
}

/// The model of each value is at its index.
pub proof fn lemma_views_index(s: Seq<Value>, n: nat)
    requires
        n <= s.len(),
    ensures
        models(s, n).len() == n,
        forall|i: int| 0 <= i < n ==> #[trigger] models(s, n)[i] == model(s[i]),
    decreases n,
{
    if n > 0 {
        lemma_views_index(s, (n - 1) as nat);
    }
}

impl View for Value {
    type V = Val;

    open spec fn view(&self) -> Val {
        model(*self)
    }
}

impl View for SchemaType {
    type V = Ty;

    open spec fn view(&self) -> Ty
        decreases self,
    {
        match self {
            SchemaType::U32 => Ty::U32,
            SchemaType::U64 => Ty::U64,
            SchemaType::U128 => Ty::U128,
            SchemaType::Str => Ty::Str,
            SchemaType::AccountId => Ty::AccountId,
            SchemaType::Struct(st) => Ty::Struct(
                Seq::new(
                    st.fields.len() as nat,
                    |i: int| if 0 <= i < st.fields.len() { st.fields[i].ty.view() } else { Ty::U32 },
                ),
            ),
            SchemaType::List(e) => Ty::List(Box::new((**e).view())),
        }
    }
}

} // verus!
