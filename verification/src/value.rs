//! Runtime values and what can be done with them without evaluating:
//! copies, equality, map keys and their order, and ordered insertion.
use vstd::prelude::*;

use vstd::string::StringExecFns;

use crate::text::str_chars;

verus! {

/// A value a program computes. The entries of a map are kept in key order,
/// each key once; the fields of a variant are kept in name order, each name
/// once.
#[derive(Debug, PartialEq)]
pub enum Value {
    Int(i64),
    Bool(bool),
    Str(String),
    Bytes(Vec<u8>),
    List(Vec<Value>),
    Dict(Vec<(ValueKey, Value)>),
    Variant { name: String, fields: Vec<(String, Value)> },
}

/// A map key.
#[derive(Debug, Clone, PartialEq, Eq, PartialOrd, Ord, Hash)]
pub enum ValueKey {
    Int(i64),
    Bool(bool),
    Str(String),
    Bytes(Vec<u8>),
}

/// An evaluation error.
#[derive(Debug, Clone, PartialEq)]
pub struct EvalError {
    pub message: String,
}

impl EvalError {
    /// An error with the given message.
    pub fn new(message: &str) -> (e: Self)
        ensures
            e.message@ == message@,
    {
        EvalError { message: String::from_str(message) }
    }
}

// ---------------------------------------------------------------------------
// The mathematical model of values.
pub ghost enum SKey {
    Int(i64),
    Bool(bool),
    Str(Seq<char>),
    Bytes(Seq<u8>),
}

pub ghost enum SValue {
    Int(i64),
    Bool(bool),
    Str(Seq<char>),
    Bytes(Seq<u8>),
    List(Seq<SValue>),
    Dict(Seq<(SKey, SValue)>),
    Variant { name: Seq<char>, fields: Seq<(Seq<char>, SValue)> },
}

impl View for ValueKey {
    type V = SKey;

    open spec fn view(&self) -> SKey {
        match self {
            ValueKey::Int(v) => SKey::Int(*v),
            ValueKey::Bool(b) => SKey::Bool(*b),
            ValueKey::Str(s) => SKey::Str(s@),
            ValueKey::Bytes(b) => SKey::Bytes(b@),
        }
    }
}

/// The mathematical value of a value.
pub open spec fn svalue_of(v: Value) -> SValue
    decreases v,
{
    match v {
        Value::Int(i) => SValue::Int(i),
        Value::Bool(b) => SValue::Bool(b),
        Value::Str(s) => SValue::Str(s@),
        Value::Bytes(b) => SValue::Bytes(b@),
        Value::List(items) => SValue::List(
            Seq::new(
                items@.len(),
                |i: int| if 0 <= i < items@.len() { svalue_of(items@[i]) } else { SValue::Int(0) },
            ),
        ),
        Value::Dict(entries) => SValue::Dict(
            Seq::new(
                entries@.len(),
                |i: int|
                    if 0 <= i < entries@.len() {
                        (entries@[i].0@, svalue_of(entries@[i].1))
                    } else {
                        (SKey::Int(0), SValue::Int(0))
                    },
            ),
        ),
        Value::Variant { name, fields } => SValue::Variant {
            name: name@,
            fields: Seq::new(
                fields@.len(),
                |i: int|
                    if 0 <= i < fields@.len() {
                        (fields@[i].0@, svalue_of(fields@[i].1))
                    } else {
                        (Seq::empty(), SValue::Int(0))
                    },
            ),
        },
    }
}

impl View for Value {
    type V = SValue;

    open spec fn view(&self) -> SValue {
        svalue_of(*self)
    }
}

pub open spec fn values_view(v: Seq<Value>) -> Seq<SValue> {
    Seq::new(v.len(), |i: int| v[i]@)
}

pub open spec fn dict_view(v: Seq<(ValueKey, Value)>) -> Seq<(SKey, SValue)> {
    Seq::new(v.len(), |i: int| (v[i].0@, v[i].1@))
}

pub open spec fn value_fields_view(v: Seq<(String, Value)>) -> Seq<(Seq<char>, SValue)> {
    Seq::new(v.len(), |i: int| (v[i].0@, v[i].1@))
}

/// The views of lists, maps and variants in terms of their parts.
pub proof fn lemma_value_views(v: Value)
    ensures
        v matches Value::List(items) ==> v@ == SValue::List(values_view(items@)),
        v matches Value::Dict(entries) ==> v@ == SValue::Dict(dict_view(entries@)),
        v matches Value::Variant { name, fields } ==> v@ == (SValue::Variant {
            name: name@,
            fields: value_fields_view(fields@),
        }),
{
    match v {
        Value::List(items) => {
            assert(v@->List_0 =~= values_view(items@));
        },
        Value::Dict(entries) => {
            assert(v@->Dict_0 =~= dict_view(entries@));
        },
        Value::Variant { name, fields } => {
            assert(v@->Variant_fields =~= value_fields_view(fields@));
        },
        _ => {},
    }
}

// ---------------------------------------------------------------------------
// Order of keys and names.
/// Lexicographic order of character sequences by code point; for strings
/// this is the order of their UTF-8 bytes.
pub open spec fn chars_lt(a: Seq<char>, b: Seq<char>) -> bool
    decreases a.len(),
{
    if a.len() == 0 {
        b.len() > 0
    } else if b.len() == 0 {
        false
    } else if a[0] != b[0] {
        (a[0] as int) < (b[0] as int)
    } else {
        chars_lt(a.drop_first(), b.drop_first())
    }
}

/// Lexicographic order of byte sequences.
pub open spec fn bytes_lt(a: Seq<u8>, b: Seq<u8>) -> bool
    decreases a.len(),
{
    if a.len() == 0 {
        b.len() > 0
    } else if b.len() == 0 {
        false
    } else if a[0] != b[0] {
        a[0] < b[0]
    } else {
        bytes_lt(a.drop_first(), b.drop_first())
    }
}

pub open spec fn key_rank(k: SKey) -> int {
    match k {
        SKey::Int(_) => 0,
        SKey::Bool(_) => 1,
        SKey::Str(_) => 2,
        SKey::Bytes(_) => 3,
    }
}

/// The order of map keys: by kind (Int, Bool, Str, Bytes), then by value.
pub open spec fn key_lt(a: SKey, b: SKey) -> bool {
    if key_rank(a) != key_rank(b) {
        key_rank(a) < key_rank(b)
    } else {
        match (a, b) {
            (SKey::Int(x), SKey::Int(y)) => x < y,
            (SKey::Bool(x), SKey::Bool(y)) => !x && y,
            (SKey::Str(x), SKey::Str(y)) => chars_lt(x, y),
            (SKey::Bytes(x), SKey::Bytes(y)) => bytes_lt(x, y),
            _ => false,
        }
    }
}

/// A map with one entry set: the value of a key that is there is replaced,
/// a new key goes in before the first greater key.
pub open spec fn dict_insert(d: Seq<(SKey, SValue)>, k: SKey, v: SValue) -> Seq<(SKey, SValue)>
    decreases d.len(),
{
    if d.len() == 0 {
        seq![(k, v)]
    } else if d[0].0 == k {
        seq![(k, v)] + d.subrange(1, d.len() as int)
    } else if key_lt(k, d[0].0) {
        seq![(k, v)] + d
    } else {
        seq![d[0]] + dict_insert(d.subrange(1, d.len() as int), k, v)
    }
}

/// The fields of a variant with one field set, kept in name order.
pub open spec fn field_insert(d: Seq<(Seq<char>, SValue)>, k: Seq<char>, v: SValue) -> Seq<
    (Seq<char>, SValue),
>
    decreases d.len(),
{
    if d.len() == 0 {
        seq![(k, v)]
    } else if d[0].0 == k {
        seq![(k, v)] + d.subrange(1, d.len() as int)
    } else if chars_lt(k, d[0].0) {
        seq![(k, v)] + d
    } else {
        seq![d[0]] + field_insert(d.subrange(1, d.len() as int), k, v)
    }
}

/// The result of `==` on two values.
pub open spec fn equal_values_spec(a: SValue, b: SValue) -> Result<bool, Seq<char>> {
    match (a, b) {
        (SValue::Int(x), SValue::Int(y)) => Ok(x == y),
        (SValue::Bool(x), SValue::Bool(y)) => Ok(x == y),
        (SValue::Str(x), SValue::Str(y)) => Ok(x == y),
        (SValue::Bytes(x), SValue::Bytes(y)) => Ok(x == y),
        (SValue::Variant { .. }, SValue::Variant { .. }) => Ok(a == b),
        _ => Err("== only supports Int/Bool/Variant"@),
    }
}

/// The key a value stands for in a map.
pub open spec fn value_to_key_spec(v: SValue) -> Result<SKey, Seq<char>> {
    match v {
        SValue::Int(x) => Ok(SKey::Int(x)),
        SValue::Bool(x) => Ok(SKey::Bool(x)),
        SValue::Str(x) => Ok(SKey::Str(x)),
        SValue::Bytes(x) => Ok(SKey::Bytes(x)),
        _ => Err("map keys must be Int or Bool"@),
    }
}

// ---------------------------------------------------------------------------
// Executable operations.
/// Whether two character lists are in lexicographic order.
fn chars_less(a: &Vec<char>, b: &Vec<char>) -> (r: bool)
    ensures
        r == chars_lt(a@, b@),
{
    let mut i: usize = 0;
    proof {
        assert(a@.subrange(0, a@.len() as int) =~= a@);
        assert(b@.subrange(0, b@.len() as int) =~= b@);
    }
    while i < a.len() && i < b.len()
        invariant
            i <= a.len(),
            i <= b.len(),
            chars_lt(a@, b@) == chars_lt(a@.subrange(i as int, a@.len() as int), b@.subrange(i as int, b@.len() as int)),
        decreases a.len() - i,
    {
        let ghost sa = a@.subrange(i as int, a@.len() as int);
        let ghost sb = b@.subrange(i as int, b@.len() as int);
        if a[i] != b[i] {
            proof {
                assert(sa[0] == a@[i as int] && sb[0] == b@[i as int]);
            }
            return a[i] < b[i];
        }
        proof {
            assert(sa.drop_first() =~= a@.subrange(i + 1, a@.len() as int));
            assert(sb.drop_first() =~= b@.subrange(i + 1, b@.len() as int));
        }
        i = i + 1;
    }
    proof {
        if i == a.len() {
            assert(a@.subrange(i as int, a@.len() as int).len() == 0);
        } else {
            assert(b@.subrange(i as int, b@.len() as int).len() == 0);
        }
    }
    i < b.len()
}

/// Whether two strings are in lexicographic order.
pub fn str_less(a: &str, b: &str) -> (r: bool)
    ensures
        r == chars_lt(a@, b@),
{
    let ca = str_chars(a);
    let cb = str_chars(b);
    chars_less(&ca, &cb)
}

/// Whether two byte lists are in lexicographic order.
fn bytes_less(a: &Vec<u8>, b: &Vec<u8>) -> (r: bool)
    ensures
        r == bytes_lt(a@, b@),
{
    let mut i: usize = 0;
    proof {
        assert(a@.subrange(0, a@.len() as int) =~= a@);
        assert(b@.subrange(0, b@.len() as int) =~= b@);
    }
    while i < a.len() && i < b.len()
        invariant
            i <= a.len(),
            i <= b.len(),
            bytes_lt(a@, b@) == bytes_lt(a@.subrange(i as int, a@.len() as int), b@.subrange(i as int, b@.len() as int)),
        decreases a.len() - i,
    {
        let ghost sa = a@.subrange(i as int, a@.len() as int);
        let ghost sb = b@.subrange(i as int, b@.len() as int);
        if a[i] != b[i] {
            proof {
                assert(sa[0] == a@[i as int] && sb[0] == b@[i as int]);
            }
            return a[i] < b[i];
        }
        proof {
            assert(sa.drop_first() =~= a@.subrange(i + 1, a@.len() as int));
            assert(sb.drop_first() =~= b@.subrange(i + 1, b@.len() as int));
        }
        i = i + 1;
    }
    proof {
        if i == a.len() {
            assert(a@.subrange(i as int, a@.len() as int).len() == 0);
        } else {
            assert(b@.subrange(i as int, b@.len() as int).len() == 0);
        }
    }
    i < b.len()
}

/// Whether two byte lists are equal.
fn bytes_equal(a: &Vec<u8>, b: &Vec<u8>) -> (r: bool)
    ensures
        r == (a@ == b@),
{
    if a.len() != b.len() {
        return false;
    }
    let mut i: usize = 0;
    while i < a.len()
        invariant
            i <= a.len(),
            a.len() == b.len(),
            forall|j: int| 0 <= j < i ==> a@[j] == b@[j],
        decreases a.len() - i,
    {
        if a[i] != b[i] {
            return false;
        }
        i = i + 1;
    }
    proof {
        assert(a@ =~= b@);
    }
    true
}

/// A copy of a byte list.
fn copy_bytes(b: &Vec<u8>) -> (r: Vec<u8>)
    ensures
        r@ == b@,
{
    let r = b.clone();
    proof {
        assert(r@ =~= b@);
    }
    r
}

impl ValueKey {
    /// A copy of the key.
    pub fn duplicate(&self) -> (r: ValueKey)
        ensures
            r@ == self@,
    {
        match self {
            ValueKey::Int(v) => ValueKey::Int(*v),
            ValueKey::Bool(b) => ValueKey::Bool(*b),
            ValueKey::Str(s) => ValueKey::Str(s.clone()),
            ValueKey::Bytes(b) => ValueKey::Bytes(copy_bytes(b)),
        }
    }

    /// Whether two keys are equal.
    pub fn same(&self, other: &ValueKey) -> (r: bool)
        ensures
            r == (self@ == other@),
    {
        match (self, other) {
            (ValueKey::Int(a), ValueKey::Int(b)) => *a == *b,
            (ValueKey::Bool(a), ValueKey::Bool(b)) => *a == *b,
            (ValueKey::Str(a), ValueKey::Str(b)) => *a == *b,
            (ValueKey::Bytes(a), ValueKey::Bytes(b)) => bytes_equal(a, b),
            _ => false,
        }
    }

    fn rank(&self) -> (r: u8)
        ensures
            r == key_rank(self@),
    {
        match self {
            ValueKey::Int(_) => 0,
            ValueKey::Bool(_) => 1,
            ValueKey::Str(_) => 2,
            ValueKey::Bytes(_) => 3,
        }
    }

    /// Whether this key comes before the other in map order.
    pub fn less(&self, other: &ValueKey) -> (r: bool)
        ensures
            r == key_lt(self@, other@),
    {
        let ra = self.rank();
        let rb = other.rank();
        if ra != rb {
            return ra < rb;
        }
        match (self, other) {
            (ValueKey::Int(a), ValueKey::Int(b)) => *a < *b,
            (ValueKey::Bool(a), ValueKey::Bool(b)) => !*a && *b,
            (ValueKey::Str(a), ValueKey::Str(b)) => str_less(a.as_str(), b.as_str()),
            (ValueKey::Bytes(a), ValueKey::Bytes(b)) => bytes_less(a, b),
            _ => false,
        }
    }
}

impl Clone for Value {
    /// A copy of the value.
    fn clone(&self) -> (r: Self)
        ensures
            r@ == self@,
    {
        self.duplicate()
    }
}

impl Value {
    /// A copy of the value.
    pub fn duplicate(&self) -> (r: Value)
        ensures
            r@ == self@,
        decreases self,
    {
        proof {
            lemma_value_views(*self);
        }
        match self {
            Value::Int(v) => Value::Int(*v),
            Value::Bool(b) => Value::Bool(*b),
            Value::Str(s) => Value::Str(s.clone()),
            Value::Bytes(b) => Value::Bytes(copy_bytes(b)),
            Value::List(items) => {
                let r = Value::List(duplicate_values(items));
                proof {
                    lemma_value_views(r);
                }
                r
            },
            Value::Dict(entries) => {
                let r = Value::Dict(duplicate_entries(entries));
                proof {
                    lemma_value_views(r);
                }
                r
            },
            Value::Variant { name, fields } => {
                let r = Value::Variant { name: name.clone(), fields: duplicate_fields(fields) };
                proof {
                    lemma_value_views(r);
                }
                r
            },
        }
    }

    /// Whether two values are the same value.
    pub fn same(&self, other: &Value) -> (r: bool)
        ensures
            r == (self@ == other@),
        decreases self,
    {
        proof {
            lemma_value_views(*self);
            lemma_value_views(*other);
        }
        match (self, other) {
            (Value::Int(a), Value::Int(b)) => *a == *b,
            (Value::Bool(a), Value::Bool(b)) => *a == *b,
            (Value::Str(a), Value::Str(b)) => *a == *b,
            (Value::Bytes(a), Value::Bytes(b)) => bytes_equal(a, b),
            (Value::List(a), Value::List(b)) => same_values(a, b),
            (Value::Dict(a), Value::Dict(b)) => same_entries(a, b),
            (Value::Variant { name: na, fields: a }, Value::Variant { name: nb, fields: b }) => {
                *na == *nb && same_fields(a, b)
            },
            _ => false,
        }
    }
}

/// Copies of a list of values.
fn duplicate_values(items: &Vec<Value>) -> (out: Vec<Value>)
    ensures
        values_view(out@) == values_view(items@),
    decreases items,
{
    let mut out: Vec<Value> = Vec::new();
    let mut i: usize = 0;
    while i < items.len()
        invariant
            i <= items.len(),
            out@.len() == i,
            forall|j: int| 0 <= j < i ==> #[trigger] out@[j]@ == items@[j]@,
        decreases items.len() - i,
    {
        proof {
            assert(decreases_to!(items => items[i as int]));
        }
        out.push(items[i].duplicate());
        i = i + 1;
    }
    proof {
        assert(values_view(out@) =~= values_view(items@));
    }
    out
}

/// Copies of the entries of a map.
fn duplicate_entries(entries: &Vec<(ValueKey, Value)>) -> (out: Vec<(ValueKey, Value)>)
    ensures
        dict_view(out@) == dict_view(entries@),
    decreases entries,
{
    let mut out: Vec<(ValueKey, Value)> = Vec::new();
    let mut i: usize = 0;
    while i < entries.len()
        invariant
            i <= entries.len(),
            out@.len() == i,
            forall|j: int|
                #![trigger out@[j]]
                0 <= j < i ==> out@[j].0@ == entries@[j].0@ && out@[j].1@ == entries@[j].1@,
        decreases entries.len() - i,
    {
        proof {
            assert(decreases_to!(entries => entries[i as int]));
        }
        let k = entries[i].0.duplicate();
        let v = entries[i].1.duplicate();
        out.push((k, v));
        i = i + 1;
    }
    proof {
        assert(dict_view(out@) =~= dict_view(entries@));
    }
    out
}

/// Copies of the fields of a variant.
pub fn duplicate_fields(fields: &Vec<(String, Value)>) -> (out: Vec<(String, Value)>)
    ensures
        value_fields_view(out@) == value_fields_view(fields@),
    decreases fields,
{
    let mut out: Vec<(String, Value)> = Vec::new();
    let mut i: usize = 0;
    while i < fields.len()
        invariant
            i <= fields.len(),
            out@.len() == i,
            forall|j: int|
                #![trigger out@[j]]
                0 <= j < i ==> out@[j].0@ == fields@[j].0@ && out@[j].1@ == fields@[j].1@,
        decreases fields.len() - i,
    {
        proof {
            assert(decreases_to!(fields => fields[i as int]));
        }
        let v = fields[i].1.duplicate();
        out.push((fields[i].0.clone(), v));
        i = i + 1;
    }
    proof {
        assert(value_fields_view(out@) =~= value_fields_view(fields@));
    }
    out
}

/// Whether two lists of values are the same.
fn same_values(a: &Vec<Value>, b: &Vec<Value>) -> (r: bool)
    ensures
        r == (values_view(a@) == values_view(b@)),
    decreases a,
{
    if a.len() != b.len() {
        proof {
            assert(values_view(a@).len() != values_view(b@).len());
        }
        return false;
    }
    let mut i: usize = 0;
    while i < a.len()
        invariant
            i <= a.len(),
            a.len() == b.len(),
            forall|j: int| 0 <= j < i ==> #[trigger] a@[j]@ == b@[j]@,
        decreases a.len() - i,
    {
        proof {
            assert(decreases_to!(a => a[i as int]));
        }
        if !a[i].same(&b[i]) {
            proof {
                assert(values_view(a@)[i as int] != values_view(b@)[i as int]);
            }
            return false;
        }
        i = i + 1;
    }
    proof {
        assert(values_view(a@) =~= values_view(b@));
    }
    true
}

/// Whether two maps have the same entries.
fn same_entries(a: &Vec<(ValueKey, Value)>, b: &Vec<(ValueKey, Value)>) -> (r: bool)
    ensures
        r == (dict_view(a@) == dict_view(b@)),
    decreases a,
{
    if a.len() != b.len() {
        proof {
            assert(dict_view(a@).len() != dict_view(b@).len());
        }
        return false;
    }
    let mut i: usize = 0;
    while i < a.len()
        invariant
            i <= a.len(),
            a.len() == b.len(),
            forall|j: int|
                #![trigger a@[j]]
                0 <= j < i ==> a@[j].0@ == b@[j].0@ && a@[j].1@ == b@[j].1@,
        decreases a.len() - i,
    {
        proof {
            assert(decreases_to!(a => a[i as int]));
        }
        if !a[i].0.same(&b[i].0) || !a[i].1.same(&b[i].1) {
            proof {
                assert(dict_view(a@)[i as int] != dict_view(b@)[i as int]);
            }
            return false;
        }
        i = i + 1;
    }
    proof {
        assert(dict_view(a@) =~= dict_view(b@));
    }
    true
}

/// Whether two variants have the same fields.
fn same_fields(a: &Vec<(String, Value)>, b: &Vec<(String, Value)>) -> (r: bool)
    ensures
        r == (value_fields_view(a@) == value_fields_view(b@)),
    decreases a,
{
    if a.len() != b.len() {
        proof {
            assert(value_fields_view(a@).len() != value_fields_view(b@).len());
        }
        return false;
    }
    let mut i: usize = 0;
    while i < a.len()
        invariant
            i <= a.len(),
            a.len() == b.len(),
            forall|j: int|
                #![trigger a@[j]]
                0 <= j < i ==> a@[j].0@ == b@[j].0@ && a@[j].1@ == b@[j].1@,
        decreases a.len() - i,
    {
        proof {
            assert(decreases_to!(a => a[i as int]));
        }
        if a[i].0 != b[i].0 || !a[i].1.same(&b[i].1) {
            proof {
                assert(value_fields_view(a@)[i as int] != value_fields_view(b@)[i as int]);
            }
            return false;
        }
        i = i + 1;
    }
    proof {
        assert(value_fields_view(a@) =~= value_fields_view(b@));
    }
    true
}

/// `==` on two values: numbers, booleans, strings, bytes and variants
/// compare; other kinds are an error.
pub fn equal_values(a: &Value, b: &Value) -> (r: Result<bool, EvalError>)
    ensures
        match r {
            Ok(x) => equal_values_spec(a@, b@) == Ok::<bool, Seq<char>>(x),
            Err(e) => equal_values_spec(a@, b@) == Err::<bool, Seq<char>>(e.message@),
        },
{
    match (a, b) {
        (Value::Int(_), Value::Int(_))
        | (Value::Bool(_), Value::Bool(_))
        | (Value::Str(_), Value::Str(_))
        | (Value::Bytes(_), Value::Bytes(_))
        | (Value::Variant { .. }, Value::Variant { .. }) => Ok(a.same(b)),
        _ => Err(EvalError::new("== only supports Int/Bool/Variant")),
    }
}

/// The key a value stands for in a map.
pub fn value_to_key(v: &Value) -> (r: Result<ValueKey, EvalError>)
    ensures
        match r {
            Ok(k) => value_to_key_spec(v@) == Ok::<SKey, Seq<char>>(k@),
            Err(e) => value_to_key_spec(v@) == Err::<SKey, Seq<char>>(e.message@),
        },
{
    match v {
        Value::Int(x) => Ok(ValueKey::Int(*x)),
        Value::Bool(x) => Ok(ValueKey::Bool(*x)),
        Value::Str(x) => Ok(ValueKey::Str(x.clone())),
        Value::Bytes(x) => Ok(ValueKey::Bytes(copy_bytes(x))),
        _ => Err(EvalError::new("map keys must be Int or Bool")),
    }
}

/// Sets a key of a map, keeping the entries in key order.
pub fn dict_put(d: &mut Vec<(ValueKey, Value)>, k: ValueKey, v: Value)
    ensures
        dict_view(final(d)@) == dict_insert(dict_view(old(d)@), k@, v@),
{
    let ghost all = dict_view(d@);
    let ghost kv = k@;
    let ghost vv = v@;
    let mut i: usize = 0;
    proof {
        assert(all.subrange(0, 0) + all.subrange(0, all.len() as int) =~= all);
    }
    while i < d.len()
        invariant
            i <= d.len(),
            all == dict_view(d@),
            all == dict_view(old(d)@),
            kv == k@,
            vv == v@,
            dict_insert(all, kv, vv) == all.subrange(0, i as int) + dict_insert(
                all.subrange(i as int, all.len() as int),
                kv,
                vv,
            ),
        decreases d.len() - i,
    {
        let ghost rest = all.subrange(i as int, all.len() as int);
        if d[i].0.same(&k) {
            d.set(i, (k, v));
            proof {
                assert(rest[0].0 == kv);
                assert(dict_view(d@) =~= all.subrange(0, i as int) + (seq![(kv, vv)] + rest.subrange(1, rest.len() as int)));
            }
            return;
        }
        if k.less(&d[i].0) {
            d.insert(i, (k, v));
            proof {
                assert(dict_view(d@) =~= all.subrange(0, i as int) + (seq![(kv, vv)] + rest));
            }
            return;
        }
        proof {
            assert(rest.subrange(1, rest.len() as int) =~= all.subrange(i + 1, all.len() as int));
            assert(all.subrange(0, i + 1) =~= all.subrange(0, i as int) + seq![rest[0]]);
        }
        i = i + 1;
    }
    d.push((k, v));
    proof {
        assert(dict_view(d@) =~= all + seq![(kv, vv)]);
        assert(all.subrange(0, all.len() as int) =~= all);
    }
}

/// Sets a field of a variant, keeping the fields in name order.
pub fn field_put(d: &mut Vec<(String, Value)>, k: String, v: Value)
    ensures
        value_fields_view(final(d)@) == field_insert(value_fields_view(old(d)@), k@, v@),
{
    let ghost all = value_fields_view(d@);
    let ghost kv = k@;
    let ghost vv = v@;
    let mut i: usize = 0;
    proof {
        assert(all.subrange(0, 0) + all.subrange(0, all.len() as int) =~= all);
    }
    while i < d.len()
        invariant
            i <= d.len(),
            all == value_fields_view(d@),
            all == value_fields_view(old(d)@),
            kv == k@,
            vv == v@,
            field_insert(all, kv, vv) == all.subrange(0, i as int) + field_insert(
                all.subrange(i as int, all.len() as int),
                kv,
                vv,
            ),
        decreases d.len() - i,
    {
        let ghost rest = all.subrange(i as int, all.len() as int);
        if d[i].0 == k {
            d.set(i, (k, v));
            proof {
                assert(rest[0].0 == kv);
                assert(value_fields_view(d@) =~= all.subrange(0, i as int) + (seq![(kv, vv)] + rest.subrange(1, rest.len() as int)));
            }
            return;
        }
        if str_less(k.as_str(), d[i].0.as_str()) {
            d.insert(i, (k, v));
            proof {
                assert(value_fields_view(d@) =~= all.subrange(0, i as int) + (seq![(kv, vv)] + rest));
            }
            return;
        }
        proof {
            assert(rest.subrange(1, rest.len() as int) =~= all.subrange(i + 1, all.len() as int));
            assert(all.subrange(0, i + 1) =~= all.subrange(0, i as int) + seq![rest[0]]);
        }
        i = i + 1;
    }
    d.push((k, v));
    proof {
        assert(value_fields_view(d@) =~= all + seq![(kv, vv)]);
        assert(all.subrange(0, all.len() as int) =~= all);
    }
}

// ---------------------------------------------------------------------------
// Laws of maps and fields.
proof fn lemma_chars_lt_irreflexive(a: Seq<char>)
    ensures
        !chars_lt(a, a),
    decreases a.len(),
{
    if a.len() > 0 {
        lemma_chars_lt_irreflexive(a.drop_first());
    }
}

proof fn lemma_chars_lt_transitive(a: Seq<char>, b: Seq<char>, c: Seq<char>)
    requires
        chars_lt(a, b),
        chars_lt(b, c),
    ensures
        chars_lt(a, c),
    decreases a.len(),
{
    if a.len() > 0 && b.len() > 0 && c.len() > 0 && a[0] == b[0] && b[0] == c[0] {
        lemma_chars_lt_transitive(a.drop_first(), b.drop_first(), c.drop_first());
    }
}

proof fn lemma_chars_lt_total(a: Seq<char>, b: Seq<char>)
    requires
        a != b,
    ensures
        chars_lt(a, b) || chars_lt(b, a),
    decreases a.len(),
{
    if a.len() > 0 && b.len() > 0 && a[0] == b[0] {
        if a.drop_first() == b.drop_first() {
            assert(a =~= seq![a[0]] + a.drop_first());
            assert(b =~= seq![b[0]] + b.drop_first());
        } else {
            lemma_chars_lt_total(a.drop_first(), b.drop_first());
        }
    } else if a.len() > 0 && b.len() > 0 {
        assert((a[0] as int) != (b[0] as int));
    } else if a.len() == 0 && b.len() == 0 {
        assert(a =~= b);
    }
}

proof fn lemma_bytes_lt_irreflexive(a: Seq<u8>)
    ensures
        !bytes_lt(a, a),
    decreases a.len(),
{
    if a.len() > 0 {
        lemma_bytes_lt_irreflexive(a.drop_first());
    }
}

proof fn lemma_bytes_lt_transitive(a: Seq<u8>, b: Seq<u8>, c: Seq<u8>)
    requires
        bytes_lt(a, b),
        bytes_lt(b, c),
    ensures
        bytes_lt(a, c),
    decreases a.len(),
{
    if a.len() > 0 && b.len() > 0 && c.len() > 0 && a[0] == b[0] && b[0] == c[0] {
        lemma_bytes_lt_transitive(a.drop_first(), b.drop_first(), c.drop_first());
    }
}

proof fn lemma_bytes_lt_total(a: Seq<u8>, b: Seq<u8>)
    requires
        a != b,
    ensures
        bytes_lt(a, b) || bytes_lt(b, a),
    decreases a.len(),
{
    if a.len() > 0 && b.len() > 0 && a[0] == b[0] {
        if a.drop_first() == b.drop_first() {
            assert(a =~= seq![a[0]] + a.drop_first());
            assert(b =~= seq![b[0]] + b.drop_first());
        } else {
            lemma_bytes_lt_total(a.drop_first(), b.drop_first());
        }
    } else if a.len() == 0 && b.len() == 0 {
        assert(a =~= b);
    }
}

/// The order of map keys is a strict total order.
pub proof fn lemma_key_order(a: SKey, b: SKey, c: SKey)
    ensures
        !key_lt(a, a),
        key_lt(a, b) && key_lt(b, c) ==> key_lt(a, c),
        a != b ==> key_lt(a, b) || key_lt(b, a),
{
    match a {
        SKey::Str(x) => lemma_chars_lt_irreflexive(x),
        SKey::Bytes(x) => lemma_bytes_lt_irreflexive(x),
        _ => {},
    }
    if key_lt(a, b) && key_lt(b, c) && key_rank(a) == key_rank(b) && key_rank(b) == key_rank(c) {
        match (a, b, c) {
            (SKey::Str(x), SKey::Str(y), SKey::Str(z)) => lemma_chars_lt_transitive(x, y, z),
            (SKey::Bytes(x), SKey::Bytes(y), SKey::Bytes(z)) => lemma_bytes_lt_transitive(x, y, z),
            _ => {},
        }
    }
    if a != b && key_rank(a) == key_rank(b) {
        match (a, b) {
            (SKey::Str(x), SKey::Str(y)) => lemma_chars_lt_total(x, y),
            (SKey::Bytes(x), SKey::Bytes(y)) => lemma_bytes_lt_total(x, y),
            _ => {},
        }
    }
}

/// The keys of a map ascend strictly (so none is there twice).
pub open spec fn keys_sorted(d: Seq<(SKey, SValue)>) -> bool {
    forall|i: int, j: int| 0 <= i < j < d.len() ==> key_lt(#[trigger] d[i].0, #[trigger] d[j].0)
}

/// The value a map gives for a key.
pub open spec fn dict_get(d: Seq<(SKey, SValue)>, k: SKey) -> Option<SValue>
    decreases d.len(),
{
    if d.len() == 0 {
        None
    } else if d[0].0 == k {
        Some(d[0].1)
    } else {
        dict_get(d.subrange(1, d.len() as int), k)
    }
}

proof fn lemma_dict_insert_keys(d: Seq<(SKey, SValue)>, k: SKey, v: SValue)
    ensures
        forall|i: int|
            0 <= i < dict_insert(d, k, v).len() ==> #[trigger] dict_insert(d, k, v)[i].0 == k || exists|j: int|
                0 <= j < d.len() && dict_insert(d, k, v)[i].0 == d[j].0,
    decreases d.len(),
{
    let r = dict_insert(d, k, v);
    if d.len() > 0 && d[0].0 != k && !key_lt(k, d[0].0) {
        let rest = d.subrange(1, d.len() as int);
        lemma_dict_insert_keys(rest, k, v);
        assert forall|i: int| 0 <= i < r.len() implies #[trigger] r[i].0 == k || exists|j: int|
            0 <= j < d.len() && r[i].0 == d[j].0 by {
            if i == 0 {
                assert(r[0].0 == d[0].0);
            } else {
                assert(r[i] == dict_insert(rest, k, v)[i - 1]);
                if r[i].0 != k {
                    let j = choose|j: int| 0 <= j < rest.len() && dict_insert(rest, k, v)[i - 1].0 == rest[j].0;
                    assert(d[j + 1] == rest[j]);
                }
            }
        }
    } else if d.len() > 0 {
        assert forall|i: int| 0 <= i < r.len() implies #[trigger] r[i].0 == k || exists|j: int|
            0 <= j < d.len() && r[i].0 == d[j].0 by {
            if i > 0 {
                if d[0].0 == k {
                    assert(r[i] == d[i]);
                } else {
                    assert(r[i] == d[i - 1]);
                }
            }
        }
    }
}

/// Setting a key of a map: the keys still ascend, the key gives the new
/// value, and every other key gives what it gave before.
pub proof fn law_dict_insert(d: Seq<(SKey, SValue)>, k: SKey, v: SValue)
    requires
        keys_sorted(d),
    ensures
        keys_sorted(dict_insert(d, k, v)),
        dict_get(dict_insert(d, k, v), k) == Some(v),
        forall|k2: SKey| k2 != k ==> #[trigger] dict_get(dict_insert(d, k, v), k2) == dict_get(d, k2),
    decreases d.len(),
{
    let r = dict_insert(d, k, v);
    if d.len() == 0 {
        assert(r.subrange(1, r.len() as int) =~= Seq::<(SKey, SValue)>::empty());
        assert forall|k2: SKey| k2 != k implies #[trigger] dict_get(r, k2) == dict_get(d, k2) by {
            assert(dict_get(r, k2) == dict_get(r.subrange(1, r.len() as int), k2));
        }
    } else if d[0].0 == k {
        let rest = d.subrange(1, d.len() as int);
        assert(r.subrange(1, r.len() as int) =~= rest);
        assert forall|k2: SKey| k2 != k implies #[trigger] dict_get(r, k2) == dict_get(d, k2) by {
            assert(dict_get(r, k2) == dict_get(rest, k2));
        }
        assert forall|i: int, j: int| 0 <= i < j < r.len() implies key_lt(#[trigger] r[i].0, #[trigger] r[j].0) by {
            assert(r[j] == d[j]);
            if i > 0 {
                assert(r[i] == d[i]);
            }
        }
    } else if key_lt(k, d[0].0) {
        assert(r.subrange(1, r.len() as int) =~= d);
        assert forall|k2: SKey| k2 != k implies #[trigger] dict_get(r, k2) == dict_get(d, k2) by {
            assert(dict_get(r, k2) == dict_get(r.subrange(1, r.len() as int), k2));
        }
        assert forall|i: int, j: int| 0 <= i < j < r.len() implies key_lt(#[trigger] r[i].0, #[trigger] r[j].0) by {
            assert(r[j] == d[j - 1]);
            if i > 0 {
                assert(r[i] == d[i - 1]);
            } else if j > 1 {
                lemma_key_order(k, d[0].0, d[j - 1].0);
            }
        }
    } else {
        let rest = d.subrange(1, d.len() as int);
        assert(keys_sorted(rest)) by {
            assert forall|i: int, j: int| 0 <= i < j < rest.len() implies key_lt(#[trigger] rest[i].0, #[trigger] rest[j].0) by {
                assert(rest[i] == d[i + 1]);
                assert(rest[j] == d[j + 1]);
            }
        }
        law_dict_insert(rest, k, v);
        lemma_dict_insert_keys(rest, k, v);
        lemma_key_order(d[0].0, k, k);
        lemma_key_order(k, d[0].0, k);
        let ri = dict_insert(rest, k, v);
        assert(r.subrange(1, r.len() as int) =~= ri);
        assert forall|k2: SKey| k2 != k implies #[trigger] dict_get(r, k2) == dict_get(d, k2) by {
            if d[0].0 != k2 {
                assert(dict_get(r, k2) == dict_get(ri, k2));
            }
        }
        assert forall|i: int, j: int| 0 <= i < j < r.len() implies key_lt(#[trigger] r[i].0, #[trigger] r[j].0) by {
            assert(r[j] == ri[j - 1]);
            if i > 0 {
                assert(r[i] == ri[i - 1]);
            } else {
                if ri[j - 1].0 != k {
                    let m = choose|m: int| 0 <= m < rest.len() && ri[j - 1].0 == rest[m].0;
                    assert(rest[m] == d[m + 1]);
                }
            }
        }
    }
}

/// The names of a variant's fields ascend strictly.
pub open spec fn names_sorted(d: Seq<(Seq<char>, SValue)>) -> bool {
    forall|i: int, j: int| 0 <= i < j < d.len() ==> chars_lt(#[trigger] d[i].0, #[trigger] d[j].0)
}

/// The value of a field.
pub open spec fn field_get(d: Seq<(Seq<char>, SValue)>, k: Seq<char>) -> Option<SValue>
    decreases d.len(),
{
    if d.len() == 0 {
        None
    } else if d[0].0 == k {
        Some(d[0].1)
    } else {
        field_get(d.subrange(1, d.len() as int), k)
    }
}

proof fn lemma_field_insert_names(d: Seq<(Seq<char>, SValue)>, k: Seq<char>, v: SValue)
    ensures
        forall|i: int|
            0 <= i < field_insert(d, k, v).len() ==> #[trigger] field_insert(d, k, v)[i].0 == k || exists|j: int|
                0 <= j < d.len() && field_insert(d, k, v)[i].0 == d[j].0,
    decreases d.len(),
{
    let r = field_insert(d, k, v);
    if d.len() > 0 && d[0].0 != k && !chars_lt(k, d[0].0) {
        let rest = d.subrange(1, d.len() as int);
        lemma_field_insert_names(rest, k, v);
        assert forall|i: int| 0 <= i < r.len() implies #[trigger] r[i].0 == k || exists|j: int|
            0 <= j < d.len() && r[i].0 == d[j].0 by {
            if i == 0 {
                assert(r[0].0 == d[0].0);
            } else {
                assert(r[i] == field_insert(rest, k, v)[i - 1]);
                if r[i].0 != k {
                    let j = choose|j: int| 0 <= j < rest.len() && field_insert(rest, k, v)[i - 1].0 == rest[j].0;
                    assert(d[j + 1] == rest[j]);
                }
            }
        }
    } else if d.len() > 0 {
        assert forall|i: int| 0 <= i < r.len() implies #[trigger] r[i].0 == k || exists|j: int|
            0 <= j < d.len() && r[i].0 == d[j].0 by {
            if i > 0 {
                if d[0].0 == k {
                    assert(r[i] == d[i]);
                } else {
                    assert(r[i] == d[i - 1]);
                }
            }
        }
    }
}

/// Setting a field of a variant: the names still ascend, the field gives
/// the new value, and every other field gives what it gave before.
pub proof fn law_field_insert(d: Seq<(Seq<char>, SValue)>, k: Seq<char>, v: SValue)
    requires
        names_sorted(d),
    ensures
        names_sorted(field_insert(d, k, v)),
        field_get(field_insert(d, k, v), k) == Some(v),
        forall|k2: Seq<char>| k2 != k ==> #[trigger] field_get(field_insert(d, k, v), k2) == field_get(d, k2),
    decreases d.len(),
{
    let r = field_insert(d, k, v);
    if d.len() == 0 {
        assert(r.subrange(1, r.len() as int) =~= Seq::<(Seq<char>, SValue)>::empty());
        assert forall|k2: Seq<char>| k2 != k implies #[trigger] field_get(r, k2) == field_get(d, k2) by {
            assert(field_get(r, k2) == field_get(r.subrange(1, r.len() as int), k2));
        }
    } else if d[0].0 == k {
        let rest = d.subrange(1, d.len() as int);
        assert(r.subrange(1, r.len() as int) =~= rest);
        assert forall|k2: Seq<char>| k2 != k implies #[trigger] field_get(r, k2) == field_get(d, k2) by {
            assert(field_get(r, k2) == field_get(rest, k2));
        }
        assert forall|i: int, j: int| 0 <= i < j < r.len() implies chars_lt(#[trigger] r[i].0, #[trigger] r[j].0) by {
            assert(r[j] == d[j]);
            if i > 0 {
                assert(r[i] == d[i]);
            }
        }
    } else if chars_lt(k, d[0].0) {
        assert(r.subrange(1, r.len() as int) =~= d);
        assert forall|k2: Seq<char>| k2 != k implies #[trigger] field_get(r, k2) == field_get(d, k2) by {
            assert(field_get(r, k2) == field_get(r.subrange(1, r.len() as int), k2));
        }
        assert forall|i: int, j: int| 0 <= i < j < r.len() implies chars_lt(#[trigger] r[i].0, #[trigger] r[j].0) by {
            assert(r[j] == d[j - 1]);
            if i > 0 {
                assert(r[i] == d[i - 1]);
            } else if j > 1 {
                lemma_chars_lt_transitive(k, d[0].0, d[j - 1].0);
            }
        }
    } else {
        let rest = d.subrange(1, d.len() as int);
        assert(names_sorted(rest)) by {
            assert forall|i: int, j: int| 0 <= i < j < rest.len() implies chars_lt(#[trigger] rest[i].0, #[trigger] rest[j].0) by {
                assert(rest[i] == d[i + 1]);
                assert(rest[j] == d[j + 1]);
            }
        }
        law_field_insert(rest, k, v);
        lemma_field_insert_names(rest, k, v);
        lemma_chars_lt_total(d[0].0, k);
        let ri = field_insert(rest, k, v);
        assert(r.subrange(1, r.len() as int) =~= ri);
        assert forall|k2: Seq<char>| k2 != k implies #[trigger] field_get(r, k2) == field_get(d, k2) by {
            if d[0].0 != k2 {
                assert(field_get(r, k2) == field_get(ri, k2));
            }
        }
        assert forall|i: int, j: int| 0 <= i < j < r.len() implies chars_lt(#[trigger] r[i].0, #[trigger] r[j].0) by {
            assert(r[j] == ri[j - 1]);
            if i > 0 {
                assert(r[i] == ri[i - 1]);
            } else {
                if ri[j - 1].0 != k {
                    let m = choose|m: int| 0 <= m < rest.len() && ri[j - 1].0 == rest[m].0;
                    assert(rest[m] == d[m + 1]);
                }
            }
        }
    }
}

} // verus!
