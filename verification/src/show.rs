//! The text of a value as the command line prints it: the layout of a
//! derived `Debug`, with maps and fields in braces.
use vstd::prelude::*;

use vstd::string::StringExecFns;

use crate::format::{int_text, join_sep, lemma_join_step, push_int};
use crate::text::{debug_string, debug_text, decimal, push_decimal};
use crate::value::{
    dict_view, lemma_value_views, value_fields_view, values_view, SKey, SValue, Value, ValueKey,
};

verus! {

/// `true` or `false`.
pub open spec fn bool_text(b: bool) -> Seq<char> {
    if b {
        "true"@
    } else {
        "false"@
    }
}

/// The bytes in decimal, in brackets.
pub open spec fn bytes_text(b: Seq<u8>) -> Seq<char> {
    "["@ + join_sep(Seq::new(b.len(), |i: int| decimal(b[i] as nat)), ", "@) + "]"@
}

/// The text of a map key.
pub open spec fn key_text(k: SKey) -> Seq<char> {
    match k {
        SKey::Int(v) => "Int("@ + int_text(v) + ")"@,
        SKey::Bool(b) => "Bool("@ + bool_text(b) + ")"@,
        SKey::Str(s) => "Str("@ + debug_text(s) + ")"@,
        SKey::Bytes(b) => "Bytes("@ + bytes_text(b) + ")"@,
    }
}

/// The text of a value: `Int(7)`, `List([Int(1), Int(2)])`,
/// `Map({Int(1): Bool(true)})`, `Variant { name: "Node", fields: {"value": Int(7)} }`.
pub open spec fn value_text(v: SValue) -> Seq<char>
    decreases v, 1nat,
{
    match v {
        SValue::Int(i) => "Int("@ + int_text(i) + ")"@,
        SValue::Bool(b) => "Bool("@ + bool_text(b) + ")"@,
        SValue::Str(s) => "Str("@ + debug_text(s) + ")"@,
        SValue::Bytes(b) => "Bytes("@ + bytes_text(b) + ")"@,
        SValue::List(items) => "List(["@ + join_sep(value_texts(items), ", "@) + "])"@,
        SValue::Dict(entries) => "Map({"@ + join_sep(entry_texts(entries), ", "@) + "})"@,
        SValue::Variant { name, fields } => "Variant { name: "@ + debug_text(name) + ", fields: {"@
            + join_sep(field_texts(fields), ", "@) + "} }"@,
    }
}

/// The texts of the items of a list.
pub open spec fn value_texts(items: Seq<SValue>) -> Seq<Seq<char>>
    decreases items, 0nat,
{
    Seq::new(
        items.len(),
        |i: int|
            if 0 <= i < items.len() {
                value_text(items[i])
            } else {
                Seq::empty()
            },
    )
}

/// The texts of the entries of a map, `key: value` each.
pub open spec fn entry_texts(entries: Seq<(SKey, SValue)>) -> Seq<Seq<char>>
    decreases entries, 0nat,
{
    Seq::new(
        entries.len(),
        |i: int|
            if 0 <= i < entries.len() {
                key_text(entries[i].0) + ": "@ + value_text(entries[i].1)
            } else {
                Seq::empty()
            },
    )
}

/// The texts of the fields of a variant, `"name": value` each.
pub open spec fn field_texts(fields: Seq<(Seq<char>, SValue)>) -> Seq<Seq<char>>
    decreases fields, 0nat,
{
    Seq::new(
        fields.len(),
        |i: int|
            if 0 <= i < fields.len() {
                debug_text(fields[i].0) + ": "@ + value_text(fields[i].1)
            } else {
                Seq::empty()
            },
    )
}

fn push_bool(out: &mut String, b: bool)
    ensures
        final(out)@ == old(out)@ + bool_text(b),
{
    if b {
        out.append("true");
    } else {
        out.append("false");
    }
}

pub(crate) fn push_bytes(out: &mut String, b: &Vec<u8>)
    ensures
        final(out)@ == old(out)@ + bytes_text(b@),
{
    let ghost start = out@;
    let ghost pieces = Seq::new(b@.len(), |i: int| decimal(b@[i] as nat));
    out.append("[");
    let ghost open = out@;
    let mut i: usize = 0;
    while i < b.len()
        invariant
            i <= b.len(),
            pieces == Seq::new(b@.len(), |i: int| decimal(b@[i] as nat)),
            out@ == open + join_sep(pieces.take(i as int), ", "@),
        decreases b.len() - i,
    {
        if i > 0 {
            out.append(", ");
        }
        push_decimal(out, b[i] as u64);
        proof {
            lemma_join_step(pieces, ", "@, i as int);
            assert(out@ =~= open + join_sep(pieces.take(i + 1), ", "@));
        }
        i = i + 1;
    }
    out.append("]");
    proof {
        assert(pieces.take(b.len() as int) =~= pieces);
        assert(out@ =~= start + bytes_text(b@));
    }
}

fn push_key(out: &mut String, k: &ValueKey)
    ensures
        final(out)@ == old(out)@ + key_text(k@),
{
    let ghost start = out@;
    match k {
        ValueKey::Int(v) => {
            out.append("Int(");
            push_int(out, *v);
            out.append(")");
        },
        ValueKey::Bool(b) => {
            out.append("Bool(");
            push_bool(out, *b);
            out.append(")");
        },
        ValueKey::Str(s) => {
            out.append("Str(");
            let d = debug_string(s.as_str());
            out.append(d.as_str());
            out.append(")");
        },
        ValueKey::Bytes(b) => {
            out.append("Bytes(");
            push_bytes(out, b);
            out.append(")");
        },
    }
    proof {
        assert(out@ =~= start + key_text(k@));
    }
}

/// The text of a value.
pub fn show_value(v: &Value) -> (r: String)
    ensures
        r@ == value_text(v@),
{
    let mut r = String::new();
    push_value(&mut r, v);
    proof {
        assert(r@ =~= value_text(v@));
    }
    r
}

fn push_value(out: &mut String, v: &Value)
    ensures
        final(out)@ == old(out)@ + value_text(v@),
    decreases v, 1nat,
{
    proof {
        lemma_value_views(*v);
    }
    let ghost start = out@;
    match v {
        Value::Int(i) => {
            out.append("Int(");
            push_int(out, *i);
            out.append(")");
            proof {
                assert(out@ =~= start + value_text(v@));
            }
        },
        Value::Bool(b) => {
            out.append("Bool(");
            push_bool(out, *b);
            out.append(")");
            proof {
                assert(out@ =~= start + value_text(v@));
            }
        },
        Value::Str(s) => {
            out.append("Str(");
            let d = debug_string(s.as_str());
            out.append(d.as_str());
            out.append(")");
            proof {
                assert(out@ =~= start + value_text(v@));
            }
        },
        Value::Bytes(b) => {
            out.append("Bytes(");
            push_bytes(out, b);
            out.append(")");
            proof {
                assert(out@ =~= start + value_text(v@));
            }
        },
        Value::List(items) => {
            out.append("List([");
            push_items(out, items);
            out.append("])");
            proof {
                assert(out@ =~= start + value_text(v@));
            }
        },
        Value::Dict(entries) => {
            out.append("Map({");
            push_entries(out, entries);
            out.append("})");
            proof {
                assert(out@ =~= start + value_text(v@));
            }
        },
        Value::Variant { name, fields } => {
            out.append("Variant { name: ");
            let d = debug_string(name.as_str());
            out.append(d.as_str());
            out.append(", fields: {");
            push_fields(out, fields);
            out.append("} }");
            proof {
                assert(out@ =~= start + value_text(v@));
            }
        },
    }
}

fn push_items(out: &mut String, items: &Vec<Value>)
    ensures
        final(out)@ == old(out)@ + join_sep(value_texts(values_view(items@)), ", "@),
    decreases items, 0nat,
{
    let ghost xs = values_view(items@);
    let ghost pieces = value_texts(values_view(items@));
    let ghost open = out@;
    let mut i: usize = 0;
    while i < items.len()
        invariant
            i <= items.len(),
            xs == values_view(items@),
            pieces == value_texts(values_view(items@)),
            out@ == open + join_sep(pieces.take(i as int), ", "@),
        decreases items.len() - i,
    {
        if i > 0 {
            out.append(", ");
        }
        push_value(out, &items[i]);
        proof {
            lemma_join_step(pieces, ", "@, i as int);
            assert(out@ =~= open + join_sep(pieces.take(i + 1), ", "@));
        }
        i = i + 1;
    }
    proof {
        assert(pieces.take(items.len() as int) =~= pieces);
    }
}

fn push_entries(out: &mut String, entries: &Vec<(ValueKey, Value)>)
    ensures
        final(out)@ == old(out)@ + join_sep(entry_texts(dict_view(entries@)), ", "@),
    decreases entries, 0nat,
{
    let ghost es = dict_view(entries@);
    let ghost pieces = entry_texts(dict_view(entries@));
    let ghost open = out@;
    let mut i: usize = 0;
    while i < entries.len()
        invariant
            i <= entries.len(),
            es == dict_view(entries@),
            pieces == entry_texts(dict_view(entries@)),
            out@ == open + join_sep(pieces.take(i as int), ", "@),
        decreases entries.len() - i,
    {
        if i > 0 {
            out.append(", ");
        }
        let ghost mid = out@;
        push_key(out, &entries[i].0);
        out.append(": ");
        push_value(out, &entries[i].1);
        proof {
            assert(out@ =~= mid + pieces[i as int]);
            lemma_join_step(pieces, ", "@, i as int);
            assert(out@ =~= open + join_sep(pieces.take(i + 1), ", "@));
        }
        i = i + 1;
    }
    proof {
        assert(pieces.take(entries.len() as int) =~= pieces);
    }
}

fn push_fields(out: &mut String, fields: &Vec<(String, Value)>)
    ensures
        final(out)@ == old(out)@ + join_sep(field_texts(value_fields_view(fields@)), ", "@),
    decreases fields, 0nat,
{
    let ghost fs = value_fields_view(fields@);
    let ghost pieces = field_texts(value_fields_view(fields@));
    let ghost open = out@;
    let mut i: usize = 0;
    while i < fields.len()
        invariant
            i <= fields.len(),
            fs == value_fields_view(fields@),
            pieces == field_texts(value_fields_view(fields@)),
            out@ == open + join_sep(pieces.take(i as int), ", "@),
        decreases fields.len() - i,
    {
        if i > 0 {
            out.append(", ");
        }
        let ghost mid = out@;
        let fname = debug_string(fields[i].0.as_str());
        out.append(fname.as_str());
        out.append(": ");
        push_value(out, &fields[i].1);
        proof {
            assert(out@ =~= mid + pieces[i as int]);
            lemma_join_step(pieces, ", "@, i as int);
            assert(out@ =~= open + join_sep(pieces.take(i + 1), ", "@));
        }
        i = i + 1;
    }
    proof {
        assert(pieces.take(fields.len() as int) =~= pieces);
    }
}

} // verus!
