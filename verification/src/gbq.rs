//! Schema-driven record encoder for the warehouse sink.
//!
//! A typed schema (a tree of named fields) is compiled into a field table
//! and a protobuf descriptor; at encode time each record entry that names
//! a known field is written with the field's tag, scalars by their wire
//! shape, nested structs length-delimited. Unknown record keys are
//! dropped silently; a value whose shape contradicts the schema fails the
//! event with a typed error rather than a crash. Doubles are carried as
//! their raw 64 bits; the runtime converts at the edge.

use vstd::prelude::*;

use crate::proto::{
    append_bool, append_int64, append_key, append_le8, append_len_delimited, append_varint,
    key_of, le8, varint_of, WireKind,
};

verus! {

/// A schemaless record value with typed accessors, as the codecs and the
/// record encoder consume it. Strings are byte strings; a double is its
/// raw bits.
#[derive(Debug)]
pub enum Value {
    Null,
    Bool(bool),
    I64(i64),
    F64Bits(u64),
    Str(Vec<u8>),
    Bytes(Vec<u8>),
    Array(Vec<Value>),
    Object(Vec<(Vec<u8>, Value)>),
}

/// A schema column's type, as the warehouse declares it.
#[derive(Clone, Copy, Debug, PartialEq, Eq, Structural)]
pub enum ColumnType {
    Str,
    Int64,
    Double,
    Struct,
    Bytes,
    Bool,
    Timestamp,
    Date,
    Time,
    Datetime,
    Geography,
    Numeric,
    Bignumeric,
    Interval,
    Json,
}

/// The column type of a schema type code; unknown and unspecified codes
/// carry no type and their fields are skipped.
pub open spec fn column_type_of(code: i32) -> Option<ColumnType> {
    if code == 1 {
        Some(ColumnType::Str)
    } else if code == 2 {
        Some(ColumnType::Int64)
    } else if code == 3 {
        Some(ColumnType::Double)
    } else if code == 4 {
        Some(ColumnType::Struct)
    } else if code == 5 {
        Some(ColumnType::Bytes)
    } else if code == 6 {
        Some(ColumnType::Bool)
    } else if code == 7 {
        Some(ColumnType::Timestamp)
    } else if code == 8 {
        Some(ColumnType::Date)
    } else if code == 9 {
        Some(ColumnType::Time)
    } else if code == 10 {
        Some(ColumnType::Datetime)
    } else if code == 11 {
        Some(ColumnType::Geography)
    } else if code == 12 {
        Some(ColumnType::Numeric)
    } else if code == 13 {
        Some(ColumnType::Bignumeric)
    } else if code == 14 {
        Some(ColumnType::Interval)
    } else if code == 15 {
        Some(ColumnType::Json)
    } else {
        None
    }
}

fn column_type_of_exec(code: i32) -> (r: Option<ColumnType>)
    ensures
        r == column_type_of(code),
{
    if code == 1 {
        Some(ColumnType::Str)
    } else if code == 2 {
        Some(ColumnType::Int64)
    } else if code == 3 {
        Some(ColumnType::Double)
    } else if code == 4 {
        Some(ColumnType::Struct)
    } else if code == 5 {
        Some(ColumnType::Bytes)
    } else if code == 6 {
        Some(ColumnType::Bool)
    } else if code == 7 {
        Some(ColumnType::Timestamp)
    } else if code == 8 {
        Some(ColumnType::Date)
    } else if code == 9 {
        Some(ColumnType::Time)
    } else if code == 10 {
        Some(ColumnType::Datetime)
    } else if code == 11 {
        Some(ColumnType::Geography)
    } else if code == 12 {
        Some(ColumnType::Numeric)
    } else if code == 13 {
        Some(ColumnType::Bignumeric)
    } else if code == 14 {
        Some(ColumnType::Interval)
    } else if code == 15 {
        Some(ColumnType::Json)
    } else {
        None
    }
}

/// One field of the warehouse schema, as handed in by the runtime: a
/// name, a type code, and — for structs — nested fields.
#[derive(Debug)]
pub struct TableField {
    pub name: Vec<u8>,
    pub type_code: i32,
    pub fields: Vec<TableField>,
}

/// A compiled field: its column type, its assigned tag, and — for
/// structs — the compiled subfields keyed by name.
#[derive(Debug)]
pub struct Field {
    pub table_type: ColumnType,
    pub tag: u32,
    pub subfields: Vec<(Vec<u8>, Field)>,
}

/// One field of the emitted protobuf descriptor.
#[derive(Clone, Debug, PartialEq)]
pub struct FieldDescriptor {
    pub name: Vec<u8>,
    pub number: i32,
    pub type_code: i32,
    pub nested_name: Option<Vec<u8>>,
}

/// The emitted protobuf descriptor: named fields plus the nested types of
/// struct fields.
#[derive(Debug)]
pub struct Descriptor {
    pub name: Vec<u8>,
    pub fields: Vec<FieldDescriptor>,
    pub nested: Vec<Descriptor>,
}

/// Legal tags at every level of a compiled field.
pub open spec fn field_wf(f: Field) -> bool
    decreases f, 0int,
{
    &&& 1 <= f.tag <= 0x1fff_ffff
    &&& subfields_wf(f.subfields@)
}

pub open spec fn subfields_wf(s: Seq<(Vec<u8>, Field)>) -> bool
    decreases s, s.len(),
{
    if s.len() == 0 {
        true
    } else {
        field_wf(s[0].1) && subfields_wf(s.skip(1))
    }
}

/// The first compiled field of a given name.
pub open spec fn lookup_field(s: Seq<(Vec<u8>, Field)>, key: Seq<u8>) -> Option<Field>
    decreases s.len(),
{
    if s.len() == 0 {
        None
    } else if s[0].0@ == key {
        Some(s[0].1)
    } else {
        lookup_field(s.skip(1), key)
    }
}

/// Whether a value fits a compiled field's shape. A struct accepts an
/// object whose every key names a subfield and whose values fit in turn;
/// interval fields are not emitted and accept anything.
pub open spec fn field_matches(v: Value, f: Field) -> bool
    decreases v, 1int,
{
    match f.table_type {
        ColumnType::Int64 => v is I64,
        ColumnType::Double => v is F64Bits,
        ColumnType::Bool => v is Bool,
        ColumnType::Bytes => v is Bytes,
        ColumnType::Json => v is Str,
        ColumnType::Interval => true,
        ColumnType::Struct => match v {
            Value::Object(entries) => obj_matches(entries@, f.subfields@, 0),
            _ => false,
        },
        _ => v is Str,
    }
}

pub open spec fn obj_matches(
    entries: Seq<(Vec<u8>, Value)>,
    subs: Seq<(Vec<u8>, Field)>,
    i: int,
) -> bool
    decreases entries, entries.len() - i,
{
    if i < 0 || i >= entries.len() {
        true
    } else {
        &&& lookup_field(subs, entries[i].0@) matches Some(f) && field_matches(entries[i].1, f)
        &&& obj_matches(entries, subs, i + 1)
    }
}

/// The wire bytes of one field given a matching value; a mismatching
/// value contributes nothing (the encoder fails instead of emitting).
pub open spec fn enc_field(v: Value, f: Field) -> Seq<u8>
    decreases v, 1int,
{
    match f.table_type {
        ColumnType::Int64 => match v {
            Value::I64(x) => key_of(f.tag, 0) + varint_of(x as u64),
            _ => Seq::empty(),
        },
        ColumnType::Double => match v {
            Value::F64Bits(b) => key_of(f.tag, 1) + le8(b),
            _ => Seq::empty(),
        },
        ColumnType::Bool => match v {
            Value::Bool(b) => key_of(f.tag, 0) + varint_of(
                if b {
                    1
                } else {
                    0
                },
            ),
            _ => Seq::empty(),
        },
        ColumnType::Bytes => match v {
            Value::Bytes(b) => key_of(f.tag, 2) + varint_of(b@.len() as u64) + b@,
            _ => Seq::empty(),
        },
        ColumnType::Json => match v {
            Value::Str(s) => {
                let q = json_quoted(s@);
                key_of(f.tag, 2) + varint_of(q.len() as u64) + q
            },
            _ => Seq::empty(),
        },
        ColumnType::Interval => Seq::empty(),
        ColumnType::Struct => match v {
            Value::Object(entries) => {
                let body = enc_obj(entries@, f.subfields@, 0);
                key_of(f.tag, 2) + varint_of(body.len() as u64) + body
            },
            _ => Seq::empty(),
        },
        _ => match v {
            Value::Str(s) => key_of(f.tag, 2) + varint_of(s@.len() as u64) + s@,
            _ => Seq::empty(),
        },
    }
}

/// The wire bytes of an object's entries from position `i` on: known
/// fields in record order, unknown keys contributing nothing.
pub open spec fn enc_obj(
    entries: Seq<(Vec<u8>, Value)>,
    subs: Seq<(Vec<u8>, Field)>,
    i: int,
) -> Seq<u8>
    decreases entries, entries.len() - i,
{
    if i < 0 || i >= entries.len() {
        Seq::empty()
    } else {
        (match lookup_field(subs, entries[i].0@) {
            Some(f) => enc_field(entries[i].1, f),
            None => Seq::empty(),
        }) + enc_obj(entries, subs, i + 1)
    }
}

/// JSON string quoting: the value between double quotes, with the
/// escapes a JSON emitter must produce.
pub open spec fn json_esc_byte(b: u8) -> Seq<u8> {
    if b == 0x22 {
        seq![0x5cu8, 0x22u8]
    } else if b == 0x5c {
        seq![0x5cu8, 0x5cu8]
    } else if b == 0x08 {
        seq![0x5cu8, 0x62u8]
    } else if b == 0x0c {
        seq![0x5cu8, 0x66u8]
    } else if b == 0x0a {
        seq![0x5cu8, 0x6eu8]
    } else if b == 0x0d {
        seq![0x5cu8, 0x72u8]
    } else if b == 0x09 {
        seq![0x5cu8, 0x74u8]
    } else if b < 0x20 {
        seq![0x5cu8, 0x75u8, 0x30u8, 0x30u8, hex_digit(b / 16), hex_digit(b % 16)]
    } else {
        seq![b]
    }
}

pub open spec fn hex_digit(d: u8) -> u8 {
    if d < 10 {
        (0x30 + d) as u8
    } else {
        (0x57 + d) as u8
    }
}

pub open spec fn json_escaped(s: Seq<u8>) -> Seq<u8>
    decreases s.len(),
{
    if s.len() == 0 {
        Seq::empty()
    } else {
        json_esc_byte(s[0]) + json_escaped(s.skip(1))
    }
}

pub open spec fn json_quoted(s: Seq<u8>) -> Seq<u8> {
    seq![0x22u8] + json_escaped(s) + seq![0x22u8]
}

/// Emit the JSON string literal for a byte string.
fn json_quote(s: &[u8]) -> (r: Vec<u8>)
    ensures
        r@ == json_quoted(s@),
{
    let mut out: Vec<u8> = Vec::new();
    out.push(0x22);
    let mut i: usize = 0;
    proof {
        assert(out@ =~= seq![0x22u8] + json_escaped(s@.take(0)));
    }
    while i < s.len()
        invariant
            i <= s@.len(),
            out@ == seq![0x22u8] + json_escaped(s@.take(i as int)),
        decreases s@.len() - i,
    {
        let b = s[i];
        let ghost pre = out@;
        if b == 0x22 {
            out.push(0x5c);
            out.push(0x22);
        } else if b == 0x5c {
            out.push(0x5c);
            out.push(0x5c);
        } else if b == 0x08 {
            out.push(0x5c);
            out.push(0x62);
        } else if b == 0x0c {
            out.push(0x5c);
            out.push(0x66);
        } else if b == 0x0a {
            out.push(0x5c);
            out.push(0x6e);
        } else if b == 0x0d {
            out.push(0x5c);
            out.push(0x72);
        } else if b == 0x09 {
            out.push(0x5c);
            out.push(0x74);
        } else if b < 0x20 {
            out.push(0x5c);
            out.push(0x75);
            out.push(0x30);
            out.push(0x30);
            let hi = b / 16;
            let lo = b % 16;
            out.push(
                if hi < 10 {
                    0x30 + hi
                } else {
                    0x57 + hi
                },
            );
            out.push(
                if lo < 10 {
                    0x30 + lo
                } else {
                    0x57 + lo
                },
            );
        } else {
            out.push(b);
        }
        proof {
            assert(out@ =~= pre + json_esc_byte(s@[i as int]));
            lemma_json_escaped_snoc(s@.take(i as int), s@[i as int]);
            assert(s@.take(i + 1) =~= s@.take(i as int).push(s@[i as int]));
            assert(out@ =~= seq![0x22u8] + json_escaped(s@.take(i + 1)));
        }
        i = i + 1;
    }
    out.push(0x22);
    proof {
        assert(s@.take(s@.len() as int) =~= s@);
        assert(out@ =~= json_quoted(s@));
    }
    out
}

proof fn lemma_json_escaped_snoc(s: Seq<u8>, b: u8)
    ensures
        json_escaped(s.push(b)) == json_escaped(s) + json_esc_byte(b),
    decreases s.len(),
{
    if s.len() == 0 {
        assert(s.push(b)[0] == b);
        assert(s.push(b).skip(1) =~= Seq::<u8>::empty());
        assert(json_escaped(Seq::<u8>::empty()) =~= Seq::<u8>::empty());
        assert(json_escaped(s) =~= Seq::<u8>::empty());
        assert(json_escaped(s.push(b)) =~= json_esc_byte(b) + Seq::<u8>::empty());
        assert(json_esc_byte(b) + Seq::<u8>::empty() =~= Seq::<u8>::empty() + json_esc_byte(b));
    } else {
        assert(s.push(b)[0] == s[0]);
        assert(s.push(b).skip(1) =~= s.skip(1).push(b));
        lemma_json_escaped_snoc(s.skip(1), b);
        assert(json_esc_byte(s[0]) + (json_escaped(s.skip(1)) + json_esc_byte(b)) =~= (
        json_esc_byte(s[0]) + json_escaped(s.skip(1))) + json_esc_byte(b));
    }
}

/// The typed failure of the record encoder: the value's shape contradicts
/// the schema.
#[derive(Clone, Copy, Debug, PartialEq, Eq, Structural)]
pub enum EncodeError {
    TypeMismatch,
}

/// Find a subfield by name.
fn find_sub<'a>(subs: &'a Vec<(Vec<u8>, Field)>, key: &[u8]) -> (r: Option<&'a Field>)
    ensures
        r matches Some(f) ==> lookup_field(subs@, key@) == Some(*f),
        r is None ==> lookup_field(subs@, key@) is None,
{
    let mut i: usize = 0;
    proof {
        assert(subs@.skip(0) =~= subs@);
    }
    while i < subs.len()
        invariant
            i <= subs@.len(),
            lookup_field(subs@, key@) == lookup_field(subs@.skip(i as int), key@),
        decreases subs@.len() - i,
    {
        proof {
            assert(subs@.skip(i as int)[0] == subs@[i as int]);
            assert(subs@.skip(i as int).skip(1) =~= subs@.skip(i + 1));
        }
        if crate::segments::bytes_eq((&subs[i].0).as_slice(), key) {
            return Some(&subs[i].1);
        }
        i = i + 1;
    }
    proof {
        assert(subs@.skip(subs@.len() as int) =~= Seq::<(Vec<u8>, Field)>::empty());
    }
    None
}

/// Encode one record value against one compiled field, appending its wire
/// bytes; a value whose shape contradicts the schema fails the event and
/// leaves the buffer unchanged.
#[verifier::loop_isolation(false)]
pub fn encode_field(v: &Value, f: &Field, out: &mut Vec<u8>) -> (r: Result<(), EncodeError>)
    requires
        field_wf(*f),
    ensures
        r is Ok <==> field_matches(*v, *f),
        r is Ok ==> final(out)@ == old(out)@ + enc_field(*v, *f),
        r is Err ==> final(out)@ == old(out)@,
    decreases *v,
{
    match f.table_type {
        ColumnType::Int64 => match v {
            Value::I64(x) => {
                append_int64(out, f.tag, *x);
                Ok(())
            },
            _ => Err(EncodeError::TypeMismatch),
        },
        ColumnType::Double => match v {
            Value::F64Bits(b) => {
                append_key(out, f.tag, WireKind::SixtyFourBit);
                append_le8(out, *b);
                proof {
                    assert(out@ =~= old(out)@ + (key_of(f.tag, 1) + le8(*b)));
                }
                Ok(())
            },
            _ => Err(EncodeError::TypeMismatch),
        },
        ColumnType::Bool => match v {
            Value::Bool(b) => {
                append_bool(out, f.tag, *b);
                Ok(())
            },
            _ => Err(EncodeError::TypeMismatch),
        },
        ColumnType::Bytes => match v {
            Value::Bytes(b) => {
                append_len_delimited(out, f.tag, b);
                proof {
                    assert(out@ =~= old(out)@ + (key_of(f.tag, 2) + varint_of(b@.len() as u64)
                        + b@));
                }
                Ok(())
            },
            _ => Err(EncodeError::TypeMismatch),
        },
        ColumnType::Json => match v {
            Value::Str(s) => {
                let q = json_quote(s.as_slice());
                append_len_delimited(out, f.tag, &q);
                proof {
                    assert(out@ =~= old(out)@ + (key_of(f.tag, 2) + varint_of(
                        json_quoted(s@).len() as u64,
                    ) + json_quoted(s@)));
                }
                Ok(())
            },
            _ => Err(EncodeError::TypeMismatch),
        },
        ColumnType::Interval => {
            proof {
                assert(out@ =~= old(out)@ + Seq::<u8>::empty());
            }
            Ok(())
        },
        ColumnType::Struct => match v {
            Value::Object(entries) => {
                let mut body: Vec<u8> = Vec::new();
                let ghost entv = entries@;
                let ghost subv = f.subfields@;
                let mut k: usize = 0;
                proof {
                    assert(body@ + enc_obj(entv, subv, 0) =~= enc_obj(entv, subv, 0));
                }
                while k < entries.len()
                    invariant
                        k <= entv.len(),
                        entries@ == entv,
                        body@ + enc_obj(entv, subv, k as int) == enc_obj(entv, subv, 0),
                        obj_matches(entv, subv, k as int) ==> obj_matches(entv, subv, 0),
                        obj_matches(entv, subv, 0) ==> obj_matches(entv, subv, k as int),
                    decreases entv.len() - k,
                {
                    let ghost pre = body@;
                    match find_sub(&f.subfields, (&entries[k].0).as_slice()) {
                        Some(sub) => {
                            proof {
                                lemma_subfields_wf_lookup(subv, entv[k as int].0@);
                                assert(decreases_to!(*v => *entries));
                            }
                            match encode_field(&entries[k].1, sub, &mut body) {
                                Ok(()) => {
                                    proof {
                                        assert(body@ =~= pre + enc_field(
                                            entv[k as int].1,
                                            lookup_field(subv, entv[k as int].0@)->0,
                                        ));
                                        assert((pre + enc_field(
                                            entv[k as int].1,
                                            lookup_field(subv, entv[k as int].0@)->0,
                                        )) + enc_obj(entv, subv, k + 1) =~= pre + enc_obj(
                                            entv,
                                            subv,
                                            k as int,
                                        ));
                                    }
                                },
                                Err(e) => {
                                    proof {
                                        assert(!obj_matches(entv, subv, k as int));
                                    }
                                    return Err(e);
                                },
                            }
                        },
                        None => {
                            proof {
                                assert(!obj_matches(entv, subv, k as int));
                            }
                            return Err(EncodeError::TypeMismatch);
                        },
                    }
                    k = k + 1;
                }
                proof {
                    assert(enc_obj(entv, subv, entv.len() as int) =~= Seq::<u8>::empty());
                    assert(body@ =~= enc_obj(entv, subv, 0));
                    assert(obj_matches(entv, subv, entv.len() as int));
                }
                append_key(out, f.tag, WireKind::LengthDelimited);
                append_varint(out, body.len() as u64);
                crate::segments::push_all(out, body.as_slice());
                proof {
                    assert(out@ =~= old(out)@ + enc_field(*v, *f));
                }
                Ok(())
            },
            _ => Err(EncodeError::TypeMismatch),
        },
        _ => match v {
            Value::Str(s) => {
                append_len_delimited(out, f.tag, s);
                proof {
                    assert(out@ =~= old(out)@ + (key_of(f.tag, 2) + varint_of(s@.len() as u64)
                        + s@));
                }
                Ok(())
            },
            _ => Err(EncodeError::TypeMismatch),
        },
    }
}

/// A well-formed subfield list compiles well-formed fields.
proof fn lemma_subfields_wf_lookup(s: Seq<(Vec<u8>, Field)>, key: Seq<u8>)
    requires
        subfields_wf(s),
    ensures
        lookup_field(s, key) matches Some(f) ==> field_wf(f),
    decreases s.len(),
{
    if s.len() > 0 && s[0].0@ != key {
        lemma_subfields_wf_lookup(s.skip(1), key);
    }
}

/// A schema the compiler accepts: field counts small enough that every
/// assigned tag is a legal field number, at every level.
pub open spec fn schema_ok(s: Seq<TableField>) -> bool
    decreases s, s.len(),
{
    &&& s.len() <= 0x1fff_ffff
    &&& (if s.len() == 0 {
        true
    } else {
        schema_ok(s[0].fields@) && schema_ok(s.skip(1))
    })
}

/// Check that a schema is small enough for legal tags at every level.
#[verifier::loop_isolation(false)]
pub fn schema_fits(s: &Vec<TableField>) -> (r: bool)
    ensures
        r == schema_ok(s@),
    decreases s@,
{
    if s.len() > 0x1fff_ffff {
        return false;
    }
    let ghost sv = s@;
    let mut i: usize = 0;
    while i < s.len()
        invariant
            i <= sv.len(),
            sv.len() <= 0x1fff_ffff,
            forall|j: int| 0 <= j < i ==> schema_ok((#[trigger] sv[j]).fields@),
        decreases sv.len() - i,
    {
        proof {
            assert(decreases_to!(sv => sv[i as int]));
            assert(decreases_to!(sv[i as int] => sv[i as int].fields));
            assert(decreases_to!(sv[i as int].fields => sv[i as int].fields@));
        }
        if !schema_fits(&s[i].fields) {
            proof {
                lemma_schema_ok_parts(sv, i as int);
            }
            return false;
        }
        i = i + 1;
    }
    proof {
        lemma_schema_ok_all(sv);
    }
    true
}

/// A schema level is legal exactly when it is short enough and each
/// field's nested list is legal.
proof fn lemma_schema_ok_parts(s: Seq<TableField>, i: int)
    requires
        0 <= i < s.len(),
        !schema_ok(s[i].fields@),
    ensures
        !schema_ok(s),
{
    if schema_ok(s) {
        lemma_schema_ok_at(s, i);
    }
}

proof fn lemma_schema_ok_all(s: Seq<TableField>)
    requires
        s.len() <= 0x1fff_ffff,
        forall|j: int| 0 <= j < s.len() ==> schema_ok((#[trigger] s[j]).fields@),
    ensures
        schema_ok(s),
    decreases s.len(),
{
    if s.len() > 0 {
        assert forall|j: int| 0 <= j < s.skip(1).len() implies schema_ok(
            (#[trigger] s.skip(1)[j]).fields@,
        ) by {
            assert(s.skip(1)[j] == s[j + 1]);
        }
        lemma_schema_ok_all(s.skip(1));
    }
}

/// The schema's fields of a known type, from position `i` on, in order.
pub open spec fn kf_from(s: Seq<TableField>, i: int) -> Seq<TableField>
    decreases s, s.len() - i,
{
    if i < 0 || i >= s.len() {
        Seq::empty()
    } else {
        (if column_type_of(s[i].type_code) is Some {
            seq![s[i]]
        } else {
            Seq::empty()
        }) + kf_from(s, i + 1)
    }
}

/// The protobuf descriptor type code for a column type.
pub open spec fn grpc_code(ct: ColumnType) -> int {
    match ct {
        ColumnType::Int64 => 3,
        ColumnType::Double => 1,
        ColumnType::Bool => 8,
        ColumnType::Bytes => 12,
        ColumnType::Struct => 11,
        _ => 9,
    }
}

/// What compiling a schema produces: one table entry and one descriptor
/// field per known-typed schema field, in schema order, tags 1..N.
/// The bytes of the `struct_` prefix given to nested message names.
pub open spec fn struct_prefix() -> Seq<u8> {
    seq![0x73u8, 0x74u8, 0x72u8, 0x75u8, 0x63u8, 0x74u8, 0x5fu8]
}

/// How many struct-typed fields stand in `kf[0..upto)`.
pub open spec fn scount(kf: Seq<TableField>, upto: int) -> int
    decreases upto,
{
    if upto <= 0 {
        0
    } else {
        scount(kf, upto - 1) + (if column_type_of(kf[upto - 1].type_code) == Some(
            ColumnType::Struct,
        ) {
            1int
        } else {
            0int
        })
    }
}

/// Every known-typed field of `kf_from(s, i0)` comes from the schema
/// level itself.
proof fn lemma_kf_elem(s: Seq<TableField>, i0: int, k: int)
    requires
        0 <= i0,
        0 <= k < kf_from(s, i0).len(),
    ensures
        exists|m: int| i0 <= m < s.len() && kf_from(s, i0)[k] == s[m],
    decreases s.len() - i0,
{
    if i0 < s.len() {
        if column_type_of(s[i0].type_code) is Some {
            if k == 0 {
                assert(kf_from(s, i0)[0] == s[i0]);
            } else {
                lemma_kf_elem(s, i0 + 1, k - 1);
                let m = choose|m: int| i0 + 1 <= m < s.len() && kf_from(s, i0 + 1)[k - 1] == s[m];
                assert(kf_from(s, i0)[k] == kf_from(s, i0 + 1)[k - 1]);
                assert(kf_from(s, i0)[k] == s[m]);
            }
        } else {
            assert(kf_from(s, i0) =~= kf_from(s, i0 + 1));
            lemma_kf_elem(s, i0 + 1, k);
        }
    }
}

pub open spec fn built_from(
    raw: Seq<TableField>,
    fields: Seq<(Vec<u8>, Field)>,
    desc: Descriptor,
) -> bool
    decreases raw,
    via built_from_dec
{
    let kf = kf_from(raw, 0);
    &&& subfields_wf(fields)
    &&& fields.len() == kf.len()
    &&& desc.fields@.len() == kf.len()
    &&& desc.nested@.len() == scount(kf, kf.len() as int)
    &&& forall|k: int|
        0 <= k < kf.len() ==> {
            &&& (#[trigger] fields[k]).0@ == kf[k].name@
            &&& fields[k].1.tag == k + 1
            &&& fields[k].1.table_type == column_type_of(kf[k].type_code)->0
            &&& (#[trigger] desc.fields@[k]).name@ == kf[k].name@
            &&& desc.fields@[k].number == k + 1
            &&& desc.fields@[k].type_code == grpc_code(column_type_of(kf[k].type_code)->0)
        }
    &&& forall|k: int|
        0 <= k < kf.len() ==> {
            let fk = #[trigger] fields[k];
            let dk = #[trigger] desc.fields@[k];
            if column_type_of(kf[k].type_code) == Some(ColumnType::Struct) {
                let j = scount(kf, k);
                &&& 0 <= j < desc.nested@.len()
                &&& built_from(kf[k].fields@, fk.1.subfields@, desc.nested@[j])
                &&& desc.nested@[j].name@ == struct_prefix() + kf[k].name@
                &&& dk.nested_name matches Some(n) && n@ == struct_prefix() + kf[k].name@
            } else {
                dk.nested_name is None
            }
        }
}

#[via_fn]
proof fn built_from_dec(raw: Seq<TableField>, fields: Seq<(Vec<u8>, Field)>, desc: Descriptor) {
    assert forall|k: int| 0 <= k < kf_from(raw, 0).len() implies decreases_to!(
        raw => kf_from(raw, 0)[k].fields@
    ) by {
        lemma_kf_elem(raw, 0, k);
        let m = choose|m: int| 0 <= m < raw.len() && kf_from(raw, 0)[k] == raw[m];
        assert(decreases_to!(raw => raw[m]));
        assert(decreases_to!(raw[m] => raw[m].fields));
        assert(decreases_to!(raw[m].fields => raw[m].fields@));
    }
}

/// Appending a field does not change the struct count of the prefix.
proof fn lemma_scount_push(kf: Seq<TableField>, e: TableField, upto: int)
    requires
        0 <= upto <= kf.len(),
    ensures
        scount(kf.push(e), upto) == scount(kf, upto),
    decreases upto,
{
    if upto > 0 {
        assert(kf.push(e)[upto - 1] == kf[upto - 1]);
        lemma_scount_push(kf, e, upto - 1);
    }
}

proof fn lemma_subfields_wf_snoc(s: Seq<(Vec<u8>, Field)>, e: (Vec<u8>, Field))
    requires
        subfields_wf(s),
        field_wf(e.1),
    ensures
        subfields_wf(s.push(e)),
    decreases s.len(),
{
    if s.len() == 0 {
        assert(s.push(e)[0] == e);
        assert(s.push(e).skip(1) =~= Seq::<(Vec<u8>, Field)>::empty());
        assert(subfields_wf(Seq::<(Vec<u8>, Field)>::empty()));
    } else {
        assert(s.push(e)[0] == s[0]);
        assert(s.push(e).skip(1) =~= s.skip(1).push(e));
        lemma_subfields_wf_snoc(s.skip(1), e);
    }
}

/// Compile a schema level into its field table and descriptor. Fields of
/// unknown or unspecified type are skipped; the rest get tags 1..N in
/// schema order; struct fields are compiled recursively into nested
/// types.
#[verifier::loop_isolation(false)]
#[verifier::rlimit(100)]
pub fn map_field(schema_name: &[u8], raw_fields: &Vec<TableField>) -> (r: (
    Descriptor,
    Vec<(Vec<u8>, Field)>,
))
    requires
        schema_ok(raw_fields@),
    ensures
        built_from(raw_fields@, r.1@, r.0),
        r.0.name@ == schema_name@,
    decreases raw_fields@,
{
    let ghost raw = raw_fields@;
    let mut proto_fields: Vec<FieldDescriptor> = Vec::new();
    let mut nested: Vec<Descriptor> = Vec::new();
    let mut fields: Vec<(Vec<u8>, Field)> = Vec::new();
    let mut tag: u32 = 1;
    let mut i: usize = 0;
    let ghost mut known: Seq<TableField> = Seq::empty();
    proof {
        assert(known + kf_from(raw, 0) =~= kf_from(raw, 0));
        assert(subfields_wf(fields@));
        assert(scount(known, 0) == 0);
    }
    while i < raw_fields.len()
        invariant
            i <= raw.len(),
            known + kf_from(raw, i as int) == kf_from(raw, 0),
            fields@.len() == known.len(),
            proto_fields@.len() == known.len(),
            tag == known.len() + 1,
            known.len() <= i,
            subfields_wf(fields@),
            forall|k: int|
                0 <= k < known.len() ==> {
                    &&& (#[trigger] fields@[k]).0@ == known[k].name@
                    &&& fields@[k].1.tag == k + 1
                    &&& fields@[k].1.table_type == column_type_of(known[k].type_code)->0
                    &&& (#[trigger] proto_fields@[k]).name@ == known[k].name@
                    &&& proto_fields@[k].number == k + 1
                    &&& proto_fields@[k].type_code == grpc_code(
                        column_type_of(known[k].type_code)->0,
                    )
                },
            nested@.len() == scount(known, known.len() as int),
            forall|k: int|
                0 <= k < known.len() ==> {
                    let fk = #[trigger] fields@[k];
                    let dk = #[trigger] proto_fields@[k];
                    if column_type_of(known[k].type_code) == Some(ColumnType::Struct) {
                        let j = scount(known, k);
                        &&& 0 <= j < nested@.len()
                        &&& built_from(known[k].fields@, fk.1.subfields@, nested@[j])
                        &&& nested@[j].name@ == struct_prefix() + known[k].name@
                        &&& dk.nested_name matches Some(n) && n@ == struct_prefix() + known[k].name@
                    } else {
                        dk.nested_name is None
                    }
                },
        decreases raw.len() - i,
    {
        let raw_field = &raw_fields[i];
        proof {
            assert(kf_from(raw, i as int) == (if column_type_of(raw[i as int].type_code)
                is Some {
                seq![raw[i as int]]
            } else {
                Seq::<TableField>::empty()
            }) + kf_from(raw, i + 1));
            lemma_schema_ok_at(raw, i as int);
        }
        match column_type_of_exec(raw_field.type_code) {
            None => {
                proof {
                    assert(Seq::<TableField>::empty() + kf_from(raw, i + 1) =~= kf_from(
                        raw,
                        i + 1,
                    ));
                }
            },
            Some(ct) => {
                let ghost known_pre = known;
                let ghost nested_pre = nested@;
                let mut subfields: Vec<(Vec<u8>, Field)> = Vec::new();
                let mut nested_name: Option<Vec<u8>> = None;
                if matches!(ct, ColumnType::Struct) {
                    let mut tn: Vec<u8> = Vec::new();
                    tn.push(0x73);
                    tn.push(0x74);
                    tn.push(0x72);
                    tn.push(0x75);
                    tn.push(0x63);
                    tn.push(0x74);
                    tn.push(0x5f);
                    crate::segments::push_all(&mut tn, raw_field.name.as_slice());
                    proof {
                        assert(tn@ =~= struct_prefix() + raw[i as int].name@);
                        assert(decreases_to!(raw => raw[i as int]));
                        assert(decreases_to!(raw[i as int] => raw[i as int].fields));
                        assert(decreases_to!(raw[i as int].fields => raw[i as int].fields@));
                    }
                    let mapped = map_field(tn.as_slice(), &raw_field.fields);
                    nested.push(mapped.0);
                    subfields = mapped.1;
                    nested_name = Some(tn);
                    proof {
                        assert(nested@.len() == nested_pre.len() + 1);
                        assert(built_from(
                            raw[i as int].fields@,
                            subfields@,
                            nested@[nested_pre.len() as int],
                        ));
                        assert(nested@[nested_pre.len() as int].name@ == struct_prefix()
                            + raw[i as int].name@);
                    }
                }
                let ghost sub_view = subfields@;
                let grpc: i32 = match ct {
                    ColumnType::Int64 => 3,
                    ColumnType::Double => 1,
                    ColumnType::Bool => 8,
                    ColumnType::Bytes => 12,
                    ColumnType::Struct => 11,
                    _ => 9,
                };
                let mut fname: Vec<u8> = Vec::new();
                crate::segments::push_all(&mut fname, raw_field.name.as_slice());
                let mut fname2: Vec<u8> = Vec::new();
                crate::segments::push_all(&mut fname2, raw_field.name.as_slice());
                proof {
                    assert(fname@ =~= raw[i as int].name@);
                    assert(fname2@ =~= raw[i as int].name@);
                }
                let ghost old_fields_view = fields@;
                let ghost old_proto_view = proto_fields@;
                proto_fields.push(
                    FieldDescriptor {
                        name: fname,
                        number: tag as i32,
                        type_code: grpc,
                        nested_name,
                    },
                );
                let fld = Field { table_type: ct, tag, subfields };
                proof {
                    if subfields@.len() == 0 {
                        assert(subfields_wf(subfields@));
                    }
                    assert(1 <= fld.tag <= 0x1fff_ffff);
                    assert(field_wf(fld));
                    lemma_subfields_wf_snoc(fields@, (fname2, fld));
                }
                fields.push((fname2, fld));
                proof {
                    known = known_pre.push(raw[i as int]);
                    assert(known_pre + (seq![raw[i as int]] + kf_from(raw, i + 1)) =~= known
                        + kf_from(raw, i + 1));
                    assert forall|k: int| 0 <= k <= known_pre.len() implies #[trigger] scount(
                        known,
                        k,
                    ) == scount(known_pre, k) by {
                        lemma_scount_push(known_pre, raw[i as int], k);
                    }
                    assert(known[known_pre.len() as int] == raw[i as int]);
                    assert(scount(known, known.len() as int) == scount(
                        known,
                        known_pre.len() as int,
                    ) + (if column_type_of(raw[i as int].type_code) == Some(ColumnType::Struct) {
                        1int
                    } else {
                        0int
                    }));
                    assert(fields@[known_pre.len() as int].1.subfields@ == sub_view);
                    assert forall|k: int| 0 <= k < known.len() implies {
                        let fk = #[trigger] fields@[k];
                        let dk = #[trigger] proto_fields@[k];
                        if column_type_of(known[k].type_code) == Some(ColumnType::Struct) {
                            let j = scount(known, k);
                            &&& 0 <= j < nested@.len()
                            &&& built_from(known[k].fields@, fk.1.subfields@, nested@[j])
                            &&& nested@[j].name@ == struct_prefix() + known[k].name@
                            &&& dk.nested_name matches Some(n) && n@ == struct_prefix()
                                + known[k].name@
                        } else {
                            dk.nested_name is None
                        }
                    } by {
                        if k < known_pre.len() {
                            assert(known[k] == known_pre[k]);
                            assert(fields@[k] == old_fields_view[k]);
                            assert(proto_fields@[k] == old_proto_view[k]);
                            if column_type_of(known_pre[k].type_code) == Some(
                                ColumnType::Struct,
                            ) {
                                let j = scount(known_pre, k);
                                assert(nested@[j] == nested_pre[j]);
                            }
                        } else {
                            assert(known[k] == raw[i as int]);
                        }
                    }
                }
                tag = tag + 1;
            },
        }
        i = i + 1;
    }
    proof {
        assert(kf_from(raw, raw.len() as int) =~= Seq::<TableField>::empty());
        assert(known =~= kf_from(raw, 0));
    }
    let mut dname: Vec<u8> = Vec::new();
    crate::segments::push_all(&mut dname, schema_name);
    proof {
        assert(dname@ =~= schema_name@);
    }
    (Descriptor { name: dname, fields: proto_fields, nested }, fields)
}

/// Inside a legal schema every nested field list is legal, and the level
/// itself is short enough for its tags.
proof fn lemma_schema_ok_at(s: Seq<TableField>, i: int)
    requires
        schema_ok(s),
        0 <= i < s.len(),
    ensures
        schema_ok(s[i].fields@),
        s.len() <= 0x1fff_ffff,
    decreases i,
{
    if i == 0 {
    } else {
        assert(s.skip(1)[i - 1] == s[i]);
        lemma_schema_ok_at(s.skip(1), i - 1);
    }
}

/// Whether every known-keyed entry of a record fits the schema; unknown
/// keys are allowed (they are dropped).
pub open spec fn record_matches(
    entries: Seq<(Vec<u8>, Value)>,
    subs: Seq<(Vec<u8>, Field)>,
    i: int,
) -> bool
    decreases entries.len() - i,
{
    if i < 0 || i >= entries.len() {
        true
    } else {
        &&& (match lookup_field(subs, entries[i].0@) {
            Some(f) => field_matches(entries[i].1, f),
            None => true,
        })
        &&& record_matches(entries, subs, i + 1)
    }
}

/// The compiled schema and its wire descriptor.
pub struct JsonToProtobufMapping {
    pub fields: Vec<(Vec<u8>, Field)>,
    pub descriptor: Descriptor,
}

impl JsonToProtobufMapping {
    /// Compile a schema; the descriptor's message is named `table`.
    pub fn new(vec: &Vec<TableField>) -> (r: JsonToProtobufMapping)
        requires
            schema_ok(vec@),
        ensures
            built_from(vec@, r.fields@, r.descriptor),
            r.descriptor.name@ == seq![0x74u8, 0x61u8, 0x62u8, 0x6cu8, 0x65u8],
    {
        let mut name: Vec<u8> = Vec::new();
        name.push(0x74);
        name.push(0x61);
        name.push(0x62);
        name.push(0x6c);
        name.push(0x65);
        let d = map_field(name.as_slice(), vec);
        JsonToProtobufMapping { fields: d.1, descriptor: d.0 }
    }

    /// Encode a record against the schema: known fields in record order,
    /// unknown keys dropped silently, a shape mismatch failing the event.
    /// A record that is not an object encodes to nothing.
    #[verifier::loop_isolation(false)]
    pub fn map(&self, value: &Value) -> (r: Result<Vec<u8>, EncodeError>)
        requires
            subfields_wf(self.fields@),
        ensures
            value matches Value::Object(entries) ==> {
                &&& (r is Ok <==> record_matches(entries@, self.fields@, 0))
                &&& (r matches Ok(v) ==> v@ == enc_obj(entries@, self.fields@, 0))
            },
            !(value matches Value::Object(entries)) ==> (r matches Ok(v) && v@.len() == 0),
    {
        let mut out: Vec<u8> = Vec::new();
        match value {
            Value::Object(entries) => {
                let ghost entv = entries@;
                let ghost subv = self.fields@;
                let mut k: usize = 0;
                proof {
                    assert(out@ + enc_obj(entv, subv, 0) =~= enc_obj(entv, subv, 0));
                }
                while k < entries.len()
                    invariant
                        k <= entv.len(),
                        entries@ == entv,
                        out@ + enc_obj(entv, subv, k as int) == enc_obj(entv, subv, 0),
                        record_matches(entv, subv, k as int) ==> record_matches(entv, subv, 0),
                        record_matches(entv, subv, 0) ==> record_matches(entv, subv, k as int),
                    decreases entv.len() - k,
                {
                    let ghost pre = out@;
                    match find_sub(&self.fields, (&entries[k].0).as_slice()) {
                        Some(sub) => {
                            proof {
                                lemma_subfields_wf_lookup(subv, entv[k as int].0@);
                            }
                            match encode_field(&entries[k].1, sub, &mut out) {
                                Ok(()) => {
                                    proof {
                                        assert((pre + enc_field(
                                            entv[k as int].1,
                                            lookup_field(subv, entv[k as int].0@)->0,
                                        )) + enc_obj(entv, subv, k + 1) =~= pre + enc_obj(
                                            entv,
                                            subv,
                                            k as int,
                                        ));
                                    }
                                },
                                Err(e) => {
                                    proof {
                                        assert(!record_matches(entv, subv, k as int));
                                    }
                                    return Err(e);
                                },
                            }
                        },
                        None => {
                            proof {
                                assert(pre + Seq::<u8>::empty() =~= pre);
                                assert((pre + Seq::<u8>::empty()) + enc_obj(entv, subv, k + 1)
                                    =~= pre + enc_obj(entv, subv, k as int));
                            }
                        },
                    }
                    k = k + 1;
                }
                proof {
                    assert(enc_obj(entv, subv, entv.len() as int) =~= Seq::<u8>::empty());
                    assert(out@ =~= enc_obj(entv, subv, 0));
                    assert(record_matches(entv, subv, entv.len() as int));
                }
                Ok(out)
            },
            _ => Ok(out),
        }
    }

    /// The wire descriptor of the compiled schema.
    pub fn descriptor(&self) -> (r: &Descriptor)
        ensures
            *r == self.descriptor,
    {
        &self.descriptor
    }
}

/// What a sink reports for one append: the first response acknowledges
/// the event; an error or a missing response fails it.
#[derive(Clone, Copy, Debug, PartialEq, Eq, Structural)]
pub enum SinkReply {
    Ack,
    Fail,
}

/// The sink's reply decision for an append-rows exchange: `Some(true)`
/// for a first response that is ok, `Some(false)` for an error response,
/// `None` when the stream ended without a response.
pub fn append_reply(outcome: Option<bool>) -> (r: SinkReply)
    ensures
        r == (match outcome {
            Some(true) => SinkReply::Ack,
            _ => SinkReply::Fail,
        }),
{
    match outcome {
        Some(true) => SinkReply::Ack,
        _ => SinkReply::Fail,
    }
}

/// The length of one record entry's wire contribution: zero for an
/// unknown key.
pub open spec fn field_len(e: (Vec<u8>, Value), subs: Seq<(Vec<u8>, Field)>) -> nat {
    match lookup_field(subs, e.0@) {
        Some(f) => enc_field(e.1, f).len(),
        None => 0,
    }
}

pub open spec fn sum_field_lens(
    entries: Seq<(Vec<u8>, Value)>,
    subs: Seq<(Vec<u8>, Field)>,
    i: int,
) -> nat
    decreases entries.len() - i,
{
    if i < 0 || i >= entries.len() {
        0
    } else {
        field_len(entries[i], subs) + sum_field_lens(entries, subs, i + 1)
    }
}

/// The encoded record's length is the sum of its fields' encoded
/// lengths.
pub proof fn lemma_record_len(
    entries: Seq<(Vec<u8>, Value)>,
    subs: Seq<(Vec<u8>, Field)>,
    i: int,
)
    ensures
        enc_obj(entries, subs, i).len() == sum_field_lens(entries, subs, i),
    decreases entries.len() - i,
{
    if 0 <= i < entries.len() {
        lemma_record_len(entries, subs, i + 1);
    }
}

/// The record entries whose keys the schema knows, from `i` on.
pub open spec fn known_entries(
    entries: Seq<(Vec<u8>, Value)>,
    subs: Seq<(Vec<u8>, Field)>,
    i: int,
) -> Seq<(Vec<u8>, Value)>
    decreases entries.len() - i,
{
    if i < 0 || i >= entries.len() {
        Seq::empty()
    } else {
        (if lookup_field(subs, entries[i].0@) is Some {
            seq![entries[i]]
        } else {
            Seq::empty()
        }) + known_entries(entries, subs, i + 1)
    }
}

proof fn lemma_enc_obj_shift(
    e: (Vec<u8>, Value),
    rest: Seq<(Vec<u8>, Value)>,
    subs: Seq<(Vec<u8>, Field)>,
    j: int,
)
    requires
        j >= 0,
    ensures
        enc_obj(seq![e] + rest, subs, j + 1) == enc_obj(rest, subs, j),
    decreases rest.len() - j,
{
    if j < rest.len() {
        assert((seq![e] + rest)[j + 1] == rest[j]);
        lemma_enc_obj_shift(e, rest, subs, j + 1);
    }
}

/// Unknown record keys do not appear in the encoding: the record encodes
/// exactly as its known entries do.
pub proof fn lemma_unknown_fields_dropped(
    entries: Seq<(Vec<u8>, Value)>,
    subs: Seq<(Vec<u8>, Field)>,
    i: int,
)
    requires
        0 <= i,
    ensures
        enc_obj(entries, subs, i) == enc_obj(known_entries(entries, subs, i), subs, 0),
    decreases entries.len() - i,
{
    if i >= entries.len() {
        assert(known_entries(entries, subs, i) =~= Seq::<(Vec<u8>, Value)>::empty());
    } else {
        lemma_unknown_fields_dropped(entries, subs, i + 1);
        let rest = known_entries(entries, subs, i + 1);
        match lookup_field(subs, entries[i].0@) {
            Some(f) => {
                let ks = known_entries(entries, subs, i);
                assert(ks =~= seq![entries[i]] + rest);
                assert(ks[0] == entries[i]);
                lemma_enc_obj_shift(entries[i], rest, subs, 0);
                assert(enc_obj(ks, subs, 0) == enc_field(entries[i].1, f) + enc_obj(
                    ks,
                    subs,
                    1,
                ));
            },
            None => {
                assert(known_entries(entries, subs, i) =~= rest);
                assert(Seq::<u8>::empty() + enc_obj(entries, subs, i + 1) =~= enc_obj(
                    entries,
                    subs,
                    i + 1,
                ));
            },
        }
    }
}

} // verus!
