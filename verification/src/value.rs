//! The value types produced by the decoder, and their mathematical views.
//!
//! Every contract in this crate speaks about values through [`ValueV`], a
//! mirror of [`Value`] over `Seq<char>`, `int` and `Seq`, reached with the
//! view operator `@`.

use vstd::prelude::*;

verus! {

broadcast use vstd::std_specs::vec::axiom_vec_decreases_to_view, vstd::seq::axiom_seq_index_decreases;

/// A time of day, retaining its validated textual representation
/// (`HH:MM:SS`, optionally followed by fractional seconds and an offset).
pub struct Time(pub(crate) String);

/// A calendar date, retaining its validated textual representation
/// (`YYYY-MM-DD`).
pub struct Date(pub(crate) String);

/// A date paired with a time of day; both components are mandatory.
pub struct DateTime(pub(crate) Date, pub(crate) Time);

/// An arbitrarily sized integer.
///
/// A decoded literal is held in the smallest fixed-width variant that
/// losslessly holds it, preferring signed over unsigned at equal width;
/// a literal beyond 64-bit range is held in `Big`.
///
/// `Big` holds the magnitude as little-endian base-2^32 limbs, each limb in
/// `0 .. 2^32`; for a negative number every limb is negated, so that in both
/// cases the value is the sum of `limb[i] * 2^(32*i)`. The most significant
/// limb is never zero.
pub enum Int {
    /// Signed byte
    ByteS(i8),
    /// Unsigned byte
    ByteU(u8),
    /// Signed half-word (2 bytes)
    HalfS(i16),
    /// Unsigned half-word (2 bytes)
    HalfU(u16),
    /// Signed word (4 bytes)
    WordS(i32),
    /// Unsigned word (4 bytes)
    WordU(u32),
    /// Signed long word
    LongS(i64),
    /// Unsigned long word
    LongU(u64),
    /// Big (signed) integer
    Big(Box<Vec<i64>>),
}

/// A decoded value.
pub enum Value {
    /// Text value
    Text(String),
    /// Boolean value
    Bool(bool),
    /// Arbitrary-length integer value
    Int(Int),
    /// Number value, retaining its validated literal text
    Number(String),
    /// Date and time
    DateTime(DateTime),
    /// Date with no time
    Date(Date),
    /// Time with no date
    Time(Time),
    /// Record value: fields in source order, names unique
    Record(Vec<(String, Value)>),
    /// Dictionary value: entries in source order, keys unique by value
    Dictionary(Vec<(Value, Value)>),
    /// Any value: a wrapper for a value whose static kind is
    /// unconstrained. The document parser decodes such payloads under a
    /// fixed priority and returns the decoded value directly; the
    /// wrapper stands for schema-driven use.
    Any(Box<Value>),
    /// Optional value: an absent optional is a pair without an inline
    /// payload and without a nested block.
    Optional(Option<Box<Value>>),
    /// List of values
    List(Vec<Value>),
}

/// The decode error kinds.
pub enum Error {
    /// Wrapped I/O failure from the underlying source. Decoding text
    /// never yields it; the surrounding I/O layer does.
    Io(String),
    /// Indentation inconsistency: leading spaces are not a multiple of the
    /// document's indentation unit.
    Indentation,
    /// Structural syntax error: a line or a block that the grammar refuses.
    Syntax,
    /// Scalar decode error: payload text outside the expected scalar grammar.
    Scalar,
    /// Depth mismatch: a nested block where none was expected, or missing
    /// where one was demanded.
    Depth,
}

/// Mathematical mirror of [`Int`].
pub enum IntV {
    ByteS(int),
    ByteU(int),
    HalfS(int),
    HalfU(int),
    WordS(int),
    WordU(int),
    LongS(int),
    LongU(int),
    Big(Seq<int>),
}

/// Mathematical mirror of [`Value`].
pub enum ValueV {
    Text(Seq<char>),
    Bool(bool),
    Int(IntV),
    Number(Seq<char>),
    /// Date text and time text.
    DateTime(Seq<char>, Seq<char>),
    Date(Seq<char>),
    Time(Seq<char>),
    Record(Seq<(Seq<char>, ValueV)>),
    Dictionary(Seq<(ValueV, ValueV)>),
    Any(Box<ValueV>),
    Optional(Option<Box<ValueV>>),
    List(Seq<ValueV>),
}

impl View for Int {
    type V = IntV;

    open spec fn view(&self) -> IntV {
        match *self {
            Int::ByteS(x) => IntV::ByteS(x as int),
            Int::ByteU(x) => IntV::ByteU(x as int),
            Int::HalfS(x) => IntV::HalfS(x as int),
            Int::HalfU(x) => IntV::HalfU(x as int),
            Int::WordS(x) => IntV::WordS(x as int),
            Int::WordU(x) => IntV::WordU(x as int),
            Int::LongS(x) => IntV::LongS(x as int),
            Int::LongU(x) => IntV::LongU(x as int),
            Int::Big(ref limbs) => IntV::Big(limbs@.map_values(|l: i64| l as int)),
        }
    }
}

/// The view of a [`Value`], recursively replacing `String` by `Seq<char>`
/// and `Vec` by `Seq`.
pub open(crate) spec fn value_view(v: Value) -> ValueV
    decreases v,
{
    match v {
        Value::Text(s) => ValueV::Text(s@),
        Value::Bool(b) => ValueV::Bool(b),
        Value::Int(i) => ValueV::Int(i@),
        Value::Number(s) => ValueV::Number(s@),
        Value::DateTime(dt) => ValueV::DateTime(dt.0.0@, dt.1.0@),
        Value::Date(d) => ValueV::Date(d.0@),
        Value::Time(t) => ValueV::Time(t.0@),
        Value::Record(fields) => ValueV::Record(fields_view(fields@)),
        Value::Dictionary(pairs) => ValueV::Dictionary(pairs_view(pairs@)),
        Value::Any(b) => ValueV::Any(Box::new(value_view(*b))),
        Value::Optional(o) => ValueV::Optional(
            match o {
                Option::Some(b) => Option::Some(Box::new(value_view(*b))),
                Option::None => Option::None,
            },
        ),
        Value::List(items) => ValueV::List(items_view(items@)),
    }
}

/// The views of a record's fields, in order.
pub open(crate) spec fn fields_view(s: Seq<(String, Value)>) -> Seq<(Seq<char>, ValueV)>
    decreases s,
{
    if s.len() == 0 {
        Seq::empty()
    } else {
        seq![(s[0].0@, value_view(s[0].1))] + fields_view(s.drop_first())
    }
}

/// The views of a dictionary's entries, in order.
pub open(crate) spec fn pairs_view(s: Seq<(Value, Value)>) -> Seq<(ValueV, ValueV)>
    decreases s,
{
    if s.len() == 0 {
        Seq::empty()
    } else {
        seq![(value_view(s[0].0), value_view(s[0].1))] + pairs_view(s.drop_first())
    }
}

/// The views of a list's elements, in order.
pub open(crate) spec fn items_view(s: Seq<Value>) -> Seq<ValueV>
    decreases s,
{
    if s.len() == 0 {
        Seq::empty()
    } else {
        seq![value_view(s[0])] + items_view(s.drop_first())
    }
}

/// `fields_view` maps the fields one for one.
pub proof fn lemma_fields_view(s: Seq<(String, Value)>)
    ensures
        fields_view(s).len() == s.len(),
        forall|i: int| 0 <= i < s.len()
            ==> #[trigger] fields_view(s)[i] == (s[i].0@, value_view(s[i].1)),
    decreases s.len(),
{
    if s.len() > 0 {
        lemma_fields_view(s.drop_first());
    }
}

/// `pairs_view` maps the entries one for one.
pub proof fn lemma_pairs_view(s: Seq<(Value, Value)>)
    ensures
        pairs_view(s).len() == s.len(),
        forall|i: int| 0 <= i < s.len()
            ==> #[trigger] pairs_view(s)[i] == (value_view(s[i].0), value_view(s[i].1)),
    decreases s.len(),
{
    if s.len() > 0 {
        lemma_pairs_view(s.drop_first());
    }
}

/// `items_view` maps the elements one for one.
pub proof fn lemma_items_view(s: Seq<Value>)
    ensures
        items_view(s).len() == s.len(),
        forall|i: int| 0 <= i < s.len() ==> #[trigger] items_view(s)[i] == value_view(s[i]),
    decreases s.len(),
{
    if s.len() > 0 {
        lemma_items_view(s.drop_first());
    }
}

impl View for Value {
    type V = ValueV;

    open(crate) spec fn view(&self) -> ValueV {
        value_view(*self)
    }
}

impl View for Date {
    type V = Seq<char>;

    open(crate) spec fn view(&self) -> Seq<char> {
        self.0@
    }
}

impl View for Time {
    type V = Seq<char>;

    open(crate) spec fn view(&self) -> Seq<char> {
        self.0@
    }
}

impl View for DateTime {
    type V = (Seq<char>, Seq<char>);

    open(crate) spec fn view(&self) -> (Seq<char>, Seq<char>) {
        (self.0.0@, self.1.0@)
    }
}

} // verus!
