use vstd::prelude::*;

use crate::width::PrefixWidth;

verus! {

/// A structured value to be encoded: the in-memory side of the codec.
///
/// Text holds the UTF-8 bytes of the string it carries; a tuple is a
/// fixed, heterogeneous aggregate whose arity the decoder must already
/// know; a list is homogeneous and travels behind a length prefix that
/// counts elements, a sized list behind one that counts payload bytes;
/// a union is a one-byte tag followed by the chosen variant's payload.
#[derive(Debug)]
pub enum Value {
    /// An unsigned 8-bit integer: one byte.
    U8(u8),
    /// An unsigned 16-bit integer: two bytes in the call's ordering.
    U16(u16),
    /// An unsigned 32-bit integer: four bytes.
    U32(u32),
    /// An unsigned 64-bit integer: eight bytes.
    U64(u64),
    /// A signed 8-bit integer, two's complement.
    I8(i8),
    /// A signed 16-bit integer, two's complement.
    I16(i16),
    /// A signed 32-bit integer, two's complement.
    I32(i32),
    /// A signed 64-bit integer, two's complement.
    I64(i64),
    /// A boolean: one byte, 1 for true and 0 for false. Decoding accepts
    /// only those two byte values.
    Bool(bool),
    /// A Unicode scalar: its code point as a fixed four-byte unsigned
    /// field.
    Char(char),
    /// UTF-8 text: a prefix of the given width counting the text's
    /// bytes (not its characters), then the bytes themselves.
    Text(Vec<u8>, PrefixWidth),
    /// A fixed aggregate: the fields one after the other, no padding,
    /// no count on the wire.
    Tuple(Vec<Value>),
    /// A homogeneous list behind a count prefix: a prefix of the given
    /// width counting the elements, then each element in order.
    List(Vec<Value>, PrefixWidth),
    /// A homogeneous list behind a size prefix: a prefix of the given
    /// width holding the total encoded byte size of the elements, then
    /// each element in order.
    SizedList(Vec<Value>, PrefixWidth),
    /// A tagged union: a one-byte tag, then the payload of the chosen
    /// variant, with no padding to a common size.
    Union(u8, Box<Value>),
}

/// The shape a decoder walks: what [`Value`] the bytes are expected to
/// hold. The wire format is schema-less, so the shape travels out of
/// band and must be the one the value was encoded from.
#[derive(Debug)]
pub enum Shape {
    /// Expect [`Value::U8`].
    U8,
    /// Expect [`Value::U16`].
    U16,
    /// Expect [`Value::U32`].
    U32,
    /// Expect [`Value::U64`].
    U64,
    /// Expect [`Value::I8`].
    I8,
    /// Expect [`Value::I16`].
    I16,
    /// Expect [`Value::I32`].
    I32,
    /// Expect [`Value::I64`].
    I64,
    /// Expect [`Value::Bool`].
    Bool,
    /// Expect [`Value::Char`].
    Char,
    /// Expect [`Value::Text`] behind a prefix of this width.
    Text(PrefixWidth),
    /// Expect [`Value::Tuple`] with these fields in this order.
    Tuple(Vec<Shape>),
    /// Expect [`Value::List`] of elements of this shape behind a count
    /// prefix of this width.
    List(Box<Shape>, PrefixWidth),
    /// Expect [`Value::SizedList`] of elements of this shape behind a
    /// size prefix of this width.
    SizedList(Box<Shape>, PrefixWidth),
    /// Expect [`Value::Union`]: the tag selects from these payload
    /// shapes.
    Union(Vec<Shape>),
}

/// The mathematical model of a [`Value`]: the same tree over `Seq`
/// instead of `Vec`. Contracts and the wire-format specification speak
/// of this type.
#[verifier::ext_equal]
pub enum SpecValue {
    /// Model of [`Value::U8`].
    U8(u8),
    /// Model of [`Value::U16`].
    U16(u16),
    /// Model of [`Value::U32`].
    U32(u32),
    /// Model of [`Value::U64`].
    U64(u64),
    /// Model of [`Value::I8`].
    I8(i8),
    /// Model of [`Value::I16`].
    I16(i16),
    /// Model of [`Value::I32`].
    I32(i32),
    /// Model of [`Value::I64`].
    I64(i64),
    /// Model of [`Value::Bool`].
    Bool(bool),
    /// Model of [`Value::Char`].
    Char(char),
    /// Model of [`Value::Text`].
    Text(Seq<u8>, PrefixWidth),
    /// Model of [`Value::Tuple`].
    Tuple(Seq<SpecValue>),
    /// Model of [`Value::List`].
    List(Seq<SpecValue>, PrefixWidth),
    /// Model of [`Value::SizedList`].
    SizedList(Seq<SpecValue>, PrefixWidth),
    /// Model of [`Value::Union`].
    Union(u8, Box<SpecValue>),
}

/// The model of a [`Value`].
pub open spec fn val_of(v: Value) -> SpecValue
    decreases v,
{
    match v {
        Value::U8(x) => SpecValue::U8(x),
        Value::U16(x) => SpecValue::U16(x),
        Value::U32(x) => SpecValue::U32(x),
        Value::U64(x) => SpecValue::U64(x),
        Value::I8(x) => SpecValue::I8(x),
        Value::I16(x) => SpecValue::I16(x),
        Value::I32(x) => SpecValue::I32(x),
        Value::I64(x) => SpecValue::I64(x),
        Value::Bool(x) => SpecValue::Bool(x),
        Value::Char(x) => SpecValue::Char(x),
        Value::Text(b, w) => SpecValue::Text(b@, w),
        Value::Tuple(vs) => SpecValue::Tuple(vals_of(vs@)),
        Value::List(vs, w) => SpecValue::List(vals_of(vs@), w),
        Value::SizedList(vs, w) => SpecValue::SizedList(vals_of(vs@), w),
        Value::Union(t, p) => SpecValue::Union(t, Box::new(val_of(*p))),
    }
}

/// The models of a sequence of [`Value`]s, in order.
pub open spec fn vals_of(vs: Seq<Value>) -> Seq<SpecValue>
    decreases vs,
{
    if vs.len() == 0 {
        Seq::empty()
    } else {
        seq![val_of(vs[0])] + vals_of(vs.drop_first())
    }
}

impl View for Value {
    type V = SpecValue;

    open spec fn view(&self) -> SpecValue {
        val_of(*self)
    }
}

pub proof fn lemma_vals_of_len(vs: Seq<Value>)
    ensures
        vals_of(vs).len() == vs.len(),
    decreases vs,
{
    if vs.len() > 0 {
        lemma_vals_of_len(vs.drop_first());
    }
}

pub proof fn lemma_vals_of_index(vs: Seq<Value>, i: int)
    requires
        0 <= i < vs.len(),
    ensures
        vals_of(vs).len() == vs.len(),
        vals_of(vs)[i] == val_of(vs[i]),
    decreases vs,
{
    lemma_vals_of_len(vs);
    if i > 0 {
        lemma_vals_of_index(vs.drop_first(), i - 1);
    }
}

impl Value {
    /// True exactly when the two values model the same tree.
    pub fn equals(&self, other: &Value) -> (r: bool)
        ensures
            r == (self@ == other@),
        decreases *self,
    {
        match (self, other) {
            (Value::U8(a), Value::U8(b)) => a == b,
            (Value::U16(a), Value::U16(b)) => a == b,
            (Value::U32(a), Value::U32(b)) => a == b,
            (Value::U64(a), Value::U64(b)) => a == b,
            (Value::I8(a), Value::I8(b)) => a == b,
            (Value::I16(a), Value::I16(b)) => a == b,
            (Value::I32(a), Value::I32(b)) => a == b,
            (Value::I64(a), Value::I64(b)) => a == b,
            (Value::Bool(a), Value::Bool(b)) => a == b,
            (Value::Char(a), Value::Char(b)) => a == b,
            (Value::Text(a, wa), Value::Text(b, wb)) => bytes_eq(a, b) && wa == wb,
            (Value::Tuple(a), Value::Tuple(b)) => values_eq(a, b),
            (Value::List(a, wa), Value::List(b, wb)) => values_eq(a, b) && wa == wb,
            (Value::SizedList(a, wa), Value::SizedList(b, wb)) => values_eq(a, b) && wa
                == wb,
            (Value::Union(ta, pa), Value::Union(tb, pb)) => ta == tb && pa.equals(pb),
            _ => false,
        }
    }
}

/// True exactly when the two byte vectors hold the same bytes.
fn bytes_eq(a: &Vec<u8>, b: &Vec<u8>) -> (r: bool)
    ensures
        r == (a@ == b@),
{
    if a.len() != b.len() {
        proof {
            assert(a@ !~= b@);
        }
        return false;
    }
    let mut i: usize = 0;
    while i < a.len()
        invariant
            i <= a@.len(),
            a@.len() == b@.len(),
            forall|j: int| 0 <= j < i ==> a@[j] == b@[j],
        decreases a@.len() - i,
    {
        if a[i] != b[i] {
            return false;
        }
        i = i + 1;
    }
    proof {
        assert(a@ =~= b@);
    }
    true
}

/// True exactly when the two vectors model the same values, element for
/// element.
fn values_eq(a: &Vec<Value>, b: &Vec<Value>) -> (r: bool)
    ensures
        r == (vals_of(a@) == vals_of(b@)),
    decreases *a,
{
    proof {
        lemma_vals_of_len(a@);
        lemma_vals_of_len(b@);
    }
    if a.len() != b.len() {
        proof {
            assert(vals_of(a@) !~= vals_of(b@));
        }
        return false;
    }
    let mut i: usize = 0;
    while i < a.len()
        invariant
            i <= a@.len(),
            a@.len() == b@.len(),
            vals_of(a@).len() == a@.len(),
            vals_of(b@).len() == b@.len(),
            forall|j: int| 0 <= j < i ==> vals_of(a@)[j] == vals_of(b@)[j],
        decreases a@.len() - i,
    {
        proof {
            lemma_vals_of_index(a@, i as int);
            lemma_vals_of_index(b@, i as int);
        }
        if !a[i].equals(&b[i]) {
            proof {
                assert(vals_of(a@)[i as int] != vals_of(b@)[i as int]);
            }
            return false;
        }
        i = i + 1;
    }
    proof {
        assert(vals_of(a@) =~= vals_of(b@));
    }
    true
}

/// One more value extends the models on the right.
pub proof fn lemma_vals_of_push(vs: Seq<Value>, v: Value)
    ensures
        vals_of(vs.push(v)) == vals_of(vs) + seq![val_of(v)],
    decreases vs,
{
    if vs.len() == 0 {
        reveal_with_fuel(vals_of, 3);
        assert(vs.push(v)[0] == v);
        assert(vs.push(v).drop_first() =~= Seq::<Value>::empty());
        assert(vals_of(vs.push(v)) =~= vals_of(vs) + seq![val_of(v)]);
    } else {
        lemma_vals_of_push(vs.drop_first(), v);
        assert(vs.push(v).drop_first() =~= vs.drop_first().push(v));
        assert(vs.push(v)[0] == vs[0]);
        assert(vals_of(vs.push(v)) =~= vals_of(vs) + seq![val_of(v)]);
    }
}

/// True when the value `v` has the shape `s`, so that decoding the
/// encoding of `v` against `s` walks the same tree.
pub open spec fn matches_shape(v: SpecValue, s: Shape) -> bool
    decreases v,
{
    match v {
        SpecValue::U8(_) => s is U8,
        SpecValue::U16(_) => s is U16,
        SpecValue::U32(_) => s is U32,
        SpecValue::U64(_) => s is U64,
        SpecValue::I8(_) => s is I8,
        SpecValue::I16(_) => s is I16,
        SpecValue::I32(_) => s is I32,
        SpecValue::I64(_) => s is I64,
        SpecValue::Bool(_) => s is Bool,
        SpecValue::Char(_) => s is Char,
        SpecValue::Text(_, w) => s matches Shape::Text(w2) && w == w2,
        SpecValue::Tuple(vs) => s matches Shape::Tuple(ss) && matches_tuple(vs, ss@),
        SpecValue::List(vs, w) => s matches Shape::List(es, w2) && w == w2 && matches_all(
            vs,
            *es,
        ),
        SpecValue::SizedList(vs, w) => s matches Shape::SizedList(es, w2) && w == w2
            && matches_all(vs, *es),
        SpecValue::Union(t, p) => s matches Shape::Union(ss) && (t as int) < ss@.len()
            && matches_shape(*p, ss@[t as int]),
    }
}

/// True when the fields `vs` have the shapes `ss`, elementwise.
pub open spec fn matches_tuple(vs: Seq<SpecValue>, ss: Seq<Shape>) -> bool
    decreases vs,
{
    &&& vs.len() == ss.len()
    &&& (vs.len() == 0 || (matches_shape(vs[0], ss[0]) && matches_tuple(
        vs.drop_first(),
        ss.drop_first(),
    )))
}

/// True when every element of `vs` has the shape `s`.
pub open spec fn matches_all(vs: Seq<SpecValue>, s: Shape) -> bool
    decreases vs,
{
    vs.len() == 0 || (matches_shape(vs[0], s) && matches_all(vs.drop_first(), s))
}

} // verus!
