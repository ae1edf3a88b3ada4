//! The executable decoder: consumes a byte buffer left to right from a given
//! position, each function returning the parsed value and the position of the
//! first byte it did not consume. Every function is proved to return exactly
//! what the wire specification's decode functions yield, errors included.

use vstd::prelude::*;
use crate::endian::{u16_read_be, i64_read_be};
use crate::utf8::utf8_check;
use crate::value::{
    Header, FieldName, StringValue, List, Object, FieldValue, Message, DecodeError, fields_view,
    objs_view, strs_view, obj_view, fv_view, lemma_fields_view_index, lemma_objs_view_index,
    VERSION1, INTEGER_T, STRING_T, LIST_T, OBJECT_T,
};
use crate::endian::spec_u16_of_be;
use crate::wire::{
    dec_i64, dec_text, dec_name, dec_string, dec_integers, dec_strings, dec_objects, dec_fields,
    dec_value, dec_list, dec_object, dec_message, upsert, lemma_upsert_found, lemma_upsert_absent,
};

verus! {

/// Whether the byte sequences of two buffers are equal.
pub fn bytes_eq(a: &Vec<u8>, b: &Vec<u8>) -> (r: bool)
    ensures
        r == (a@ == b@),
{
    if a.len() != b.len() {
        return false;
    }
    let mut i: usize = 0;
    while i < a.len()
        invariant
            a@.len() == b@.len(),
            i <= a@.len(),
            forall|j: int| 0 <= j < i ==> a@[j] == b@[j],
        decreases a@.len() - i,
    {
        if a[i] != b[i] {
            return false;
        }
        i = i + 1;
    }
    proof {
        assert(a@ =~= b@);
    }
    true
}

/// The position of the first field of `acc` named `k`, if any.
fn find_name(acc: &Vec<(FieldName, FieldValue)>, k: &FieldName) -> (r: Option<usize>)
    ensures
        match r {
            Some(i) => i < acc@.len() && acc@[i as int].0.bytes@ == k.bytes@ && (forall|j: int|
                0 <= j < i ==> acc@[j].0.bytes@ != k.bytes@),
            None => forall|j: int| 0 <= j < acc@.len() ==> acc@[j].0.bytes@ != k.bytes@,
        },
{
    let mut idx: usize = 0;
    while idx < acc.len()
        invariant
            idx <= acc@.len(),
            forall|j: int| 0 <= j < idx ==> acc@[j].0.bytes@ != k.bytes@,
        decreases acc@.len() - idx,
    {
        if bytes_eq(&acc[idx].0.bytes, &k.bytes) {
            return Some(idx);
        }
        idx = idx + 1;
    }
    None
}

/// Folds one decoded field into the fields decoded before it, last write
/// winning as the wire specification's `upsert` says.
fn upsert_field(acc: Vec<(FieldName, FieldValue)>, k: FieldName, v: FieldValue) -> (r: Vec<
    (FieldName, FieldValue),
>)
    ensures
        fields_view(r@) == upsert(fields_view(acc@), k.bytes@, fv_view(v)),
{
    let ghost accv = fields_view(acc@);
    let ghost kb = k.bytes@;
    let ghost vv = fv_view(v);
    proof {
        lemma_fields_view_index(acc@);
    }
    let mut acc = acc;
    match find_name(&acc, &k) {
        Some(i) => {
            proof {
                assert forall|j: int| 0 <= j < i implies accv[j].0 != kb by {
                    assert(accv[j] == (acc@[j].0.bytes@, fv_view(acc@[j].1)));
                }
                assert(accv[i as int].0 == kb);
                lemma_upsert_found(accv, kb, vv, i as int);
            }
            let ghost before = acc@;
            acc.remove(i);
            acc.insert(i, (k, v));
            proof {
                assert(acc@ =~= before.update(i as int, (k, v)));
                lemma_fields_view_index(acc@);
                lemma_fields_view_index(before);
                assert(fields_view(acc@) =~= accv.update(i as int, (kb, vv)));
            }
            acc
        },
        None => {
            proof {
                assert forall|j: int| 0 <= j < accv.len() implies accv[j].0 != kb by {
                    assert(accv[j] == (acc@[j].0.bytes@, fv_view(acc@[j].1)));
                }
                lemma_upsert_absent(accv, kb, vv);
            }
            let ghost before = acc@;
            acc.push((k, v));
            proof {
                assert(acc@.drop_last() =~= before);
                assert(fields_view(acc@) == fields_view(before).push((kb, vv)));
            }
            acc
        },
    }
}

/// Reads one 8-byte big-endian integer at `pos`.
fn decode_i64(bytes: &Vec<u8>, pos: usize) -> (r: Result<(i64, usize), DecodeError>)
    requires
        pos <= bytes@.len(),
    ensures
        match r {
            Ok((x, end)) => pos < end <= bytes@.len() && dec_i64(bytes@.skip(pos as int)) == Ok::<
                (i64, int),
                DecodeError,
            >((x, end - pos)),
            Err(e) => dec_i64(bytes@.skip(pos as int)) == Err::<(i64, int), DecodeError>(e),
        },
{
    let ghost b = bytes@.skip(pos as int);
    if bytes.len() - pos < 8 {
        return Err(DecodeError::TruncatedBuffer);
    }
    let x = i64_read_be(
        bytes[pos],
        bytes[pos + 1],
        bytes[pos + 2],
        bytes[pos + 3],
        bytes[pos + 4],
        bytes[pos + 5],
        bytes[pos + 6],
        bytes[pos + 7],
    );
    proof {
        assert(seq![
            bytes@[pos as int],
            bytes@[pos as int + 1],
            bytes@[pos as int + 2],
            bytes@[pos as int + 3],
            bytes@[pos as int + 4],
            bytes@[pos as int + 5],
            bytes@[pos as int + 6],
            bytes@[pos as int + 7],
        ] =~= b.take(8));
    }
    Ok((x, pos + 8))
}

/// Reads `n` bytes of UTF-8 text at `pos`, the count supplied by the caller.
fn decode_text(bytes: &Vec<u8>, pos: usize, n: usize) -> (r: Result<(Vec<u8>, usize), DecodeError>)
    requires
        pos <= bytes@.len(),
    ensures
        match r {
            Ok((t, end)) => pos <= end <= bytes@.len() && dec_text(
                bytes@.skip(pos as int),
                n as int,
            ) == Ok::<(Seq<u8>, int), DecodeError>((t@, end - pos)),
            Err(e) => dec_text(bytes@.skip(pos as int), n as int) == Err::<
                (Seq<u8>, int),
                DecodeError,
            >(e),
        },
{
    let ghost b = bytes@.skip(pos as int);
    if bytes.len() - pos < n {
        return Err(DecodeError::TruncatedBuffer);
    }
    proof {
        assert(bytes@.subrange(pos as int, pos as int + n) =~= b.take(n as int));
    }
    if !utf8_check(bytes, pos, pos + n) {
        return Err(DecodeError::InvalidUtf8);
    }
    let mut t: Vec<u8> = Vec::new();
    let stop = pos + n;
    let mut idx: usize = pos;
    while idx < stop
        invariant
            pos <= idx <= stop,
            stop == pos + n,
            stop <= bytes@.len(),
            t@ == bytes@.subrange(pos as int, idx as int),
        decreases stop - idx,
    {
        t.push(bytes[idx]);
        proof {
            assert(t@ =~= bytes@.subrange(pos as int, idx as int + 1));
        }
        idx = idx + 1;
    }
    proof {
        assert(t@ =~= b.take(n as int));
    }
    Ok((t, pos + n))
}

impl FieldName {
    /// Reads a field name at `pos`: 1-byte length, then that many text bytes.
    pub fn deserialize(bytes: &Vec<u8>, pos: usize) -> (r: Result<(FieldName, usize), DecodeError>)
        requires
            pos <= bytes@.len(),
        ensures
            match r {
                Ok((nm, end)) => pos < end <= bytes@.len() && dec_name(bytes@.skip(pos as int))
                    == Ok::<(Seq<u8>, int), DecodeError>((nm@, end - pos)),
                Err(e) => dec_name(bytes@.skip(pos as int)) == Err::<(Seq<u8>, int), DecodeError>(
                    e,
                ),
            },
    {
        let ghost b = bytes@.skip(pos as int);
        if bytes.len() - pos < 1 {
            return Err(DecodeError::TruncatedBuffer);
        }
        let n = bytes[pos] as usize;
        proof {
            assert(b.skip(1) =~= bytes@.skip(pos as int + 1));
        }
        match decode_text(bytes, pos + 1, n) {
            Ok((t, end)) => Ok((FieldName { bytes: t }, end)),
            Err(e) => Err(e),
        }
    }
}

impl StringValue {
    /// Reads a string value at `pos`: 2-byte length, then that many text bytes.
    pub fn deserialize(bytes: &Vec<u8>, pos: usize) -> (r: Result<
        (StringValue, usize),
        DecodeError,
    >)
        requires
            pos <= bytes@.len(),
        ensures
            match r {
                Ok((sv, end)) => pos < end <= bytes@.len() && dec_string(bytes@.skip(pos as int))
                    == Ok::<(Seq<u8>, int), DecodeError>((sv@, end - pos)),
                Err(e) => dec_string(bytes@.skip(pos as int)) == Err::<
                    (Seq<u8>, int),
                    DecodeError,
                >(e),
            },
    {
        let ghost b = bytes@.skip(pos as int);
        if bytes.len() - pos < 2 {
            return Err(DecodeError::TruncatedBuffer);
        }
        let n = u16_read_be(bytes[pos], bytes[pos + 1]) as usize;
        proof {
            assert(b.skip(2) =~= bytes@.skip(pos as int + 2));
        }
        match decode_text(bytes, pos + 2, n) {
            Ok((t, end)) => Ok((StringValue { bytes: t }, end)),
            Err(e) => Err(e),
        }
    }
}

/// Reads `n` consecutive 8-byte integers at `pos`.
fn decode_integers(bytes: &Vec<u8>, pos: usize, n: usize) -> (r: Result<
    (Vec<i64>, usize),
    DecodeError,
>)
    requires
        pos <= bytes@.len(),
    ensures
        match r {
            Ok((v, end)) => pos <= end <= bytes@.len() && dec_integers(
                bytes@.skip(pos as int),
                n as int,
            ) == Ok::<(Seq<i64>, int), DecodeError>((v@, end - pos)),
            Err(e) => dec_integers(bytes@.skip(pos as int), n as int) == Err::<
                (Seq<i64>, int),
                DecodeError,
            >(e),
        },
    decreases n,
{
    let ghost b = bytes@.skip(pos as int);
    if n == 0 {
        return Ok((Vec::new(), pos));
    }
    match decode_i64(bytes, pos) {
        Err(e) => Err(e),
        Ok((x, p1)) => {
            proof {
                assert(b.skip(p1 - pos) =~= bytes@.skip(p1 as int));
            }
            match decode_integers(bytes, p1, n - 1) {
                Err(e) => Err(e),
                Ok((v, end)) => {
                    let ghost vold = v@;
                    let mut v = v;
                    v.insert(0, x);
                    proof {
                        assert(v@ =~= seq![x] + vold);
                    }
                    Ok((v, end))
                },
            }
        },
    }
}

/// Reads `n` consecutive string elements at `pos`.
fn decode_strings(bytes: &Vec<u8>, pos: usize, n: usize) -> (r: Result<
    (Vec<StringValue>, usize),
    DecodeError,
>)
    requires
        pos <= bytes@.len(),
    ensures
        match r {
            Ok((v, end)) => pos <= end <= bytes@.len() && dec_strings(
                bytes@.skip(pos as int),
                n as int,
            ) == Ok::<(Seq<Seq<u8>>, int), DecodeError>((strs_view(v@), end - pos)),
            Err(e) => dec_strings(bytes@.skip(pos as int), n as int) == Err::<
                (Seq<Seq<u8>>, int),
                DecodeError,
            >(e),
        },
    decreases n,
{
    let ghost b = bytes@.skip(pos as int);
    if n == 0 {
        proof {
            assert(strs_view(Seq::<StringValue>::empty()) =~= Seq::<Seq<u8>>::empty());
        }
        return Ok((Vec::new(), pos));
    }
    match StringValue::deserialize(bytes, pos) {
        Err(e) => Err(e),
        Ok((sv, p1)) => {
            proof {
                assert(b.skip(p1 - pos) =~= bytes@.skip(p1 as int));
            }
            match decode_strings(bytes, p1, n - 1) {
                Err(e) => Err(e),
                Ok((v, end)) => {
                    let ghost vold = v@;
                    let ghost svb = sv.bytes@;
                    let mut v = v;
                    v.insert(0, sv);
                    proof {
                        assert(strs_view(v@) =~= seq![svb] + strs_view(vold));
                    }
                    Ok((v, end))
                },
            }
        },
    }
}

/// Reads `n` consecutive object elements at `pos`.
fn decode_objects(bytes: &Vec<u8>, pos: usize, n: usize) -> (r: Result<
    (Vec<Object>, usize),
    DecodeError,
>)
    requires
        pos <= bytes@.len(),
    ensures
        match r {
            Ok((v, end)) => pos <= end <= bytes@.len() && dec_objects(
                bytes@.skip(pos as int),
                n as int,
            ) == Ok::<(Seq<crate::value::ObjectV>, int), DecodeError>((objs_view(v@), end - pos)),
            Err(e) => dec_objects(bytes@.skip(pos as int), n as int) == Err::<
                (Seq<crate::value::ObjectV>, int),
                DecodeError,
            >(e),
        },
    decreases bytes@.len() - pos, 2int, n as int,
{
    let ghost b = bytes@.skip(pos as int);
    if n == 0 {
        return Ok((Vec::new(), pos));
    }
    match Object::deserialize(bytes, pos) {
        Err(e) => Err(e),
        Ok((o, p1)) => {
            proof {
                assert(b.skip(p1 - pos) =~= bytes@.skip(p1 as int));
            }
            match decode_objects(bytes, p1, n - 1) {
                Err(e) => Err(e),
                Ok((v, end)) => {
                    let ghost vold = v@;
                    let ghost ov = obj_view(o);
                    let mut v = v;
                    v.insert(0, o);
                    proof {
                        lemma_objs_view_index(vold);
                        lemma_objs_view_index(v@);
                        assert(objs_view(v@) =~= seq![ov] + objs_view(vold));
                    }
                    Ok((v, end))
                },
            }
        },
    }
}

/// Reads `n` consecutive name/value fields at `pos`, folding them into `acc`.
fn decode_fields(bytes: &Vec<u8>, pos: usize, n: usize, acc: Vec<(FieldName, FieldValue)>) -> (r:
    Result<(Vec<(FieldName, FieldValue)>, usize), DecodeError>)
    requires
        pos <= bytes@.len(),
    ensures
        match r {
            Ok((flds, end)) => pos <= end <= bytes@.len() && dec_fields(
                bytes@.skip(pos as int),
                n as int,
                fields_view(acc@),
            ) == Ok::<(Seq<(Seq<u8>, crate::value::FieldValueV)>, int), DecodeError>(
                (fields_view(flds@), end - pos),
            ),
            Err(e) => dec_fields(bytes@.skip(pos as int), n as int, fields_view(acc@)) == Err::<
                (Seq<(Seq<u8>, crate::value::FieldValueV)>, int),
                DecodeError,
            >(e),
        },
    decreases bytes@.len() - pos, 3int, n as int,
{
    let ghost b = bytes@.skip(pos as int);
    if n == 0 {
        return Ok((acc, pos));
    }
    match FieldName::deserialize(bytes, pos) {
        Err(e) => Err(e),
        Ok((k, p1)) => {
            proof {
                assert(b.skip(p1 - pos) =~= bytes@.skip(p1 as int));
            }
            match FieldValue::deserialize(bytes, p1) {
                Err(e) => Err(e),
                Ok((v, p2)) => {
                    proof {
                        assert(b.skip(p2 - pos) =~= bytes@.skip(p2 as int));
                    }
                    let ghost kb = k.bytes@;
                    let ghost vv = fv_view(v);
                    let acc2 = upsert_field(acc, k, v);
                    match decode_fields(bytes, p2, n - 1, acc2) {
                        Err(e) => Err(e),
                        Ok((flds, end)) => Ok((flds, end)),
                    }
                },
            }
        },
    }
}

impl FieldValue {
    /// Reads a field value at `pos`: a tag byte, then the tagged payload.
    pub fn deserialize(bytes: &Vec<u8>, pos: usize) -> (r: Result<
        (FieldValue, usize),
        DecodeError,
    >)
        requires
            pos <= bytes@.len(),
        ensures
            match r {
                Ok((v, end)) => pos < end <= bytes@.len() && dec_value(bytes@.skip(pos as int))
                    == Ok::<(crate::value::FieldValueV, int), DecodeError>(
                    (fv_view(v), end - pos),
                ),
                Err(e) => dec_value(bytes@.skip(pos as int)) == Err::<
                    (crate::value::FieldValueV, int),
                    DecodeError,
                >(e),
            },
        decreases bytes@.len() - pos, 3int, 0int,
    {
        let ghost b = bytes@.skip(pos as int);
        if bytes.len() - pos < 1 {
            return Err(DecodeError::TruncatedBuffer);
        }
        let tag = bytes[pos];
        proof {
            assert(b.skip(1) =~= bytes@.skip(pos as int + 1));
        }
        if tag == INTEGER_T {
            match decode_i64(bytes, pos + 1) {
                Err(e) => Err(e),
                Ok((x, end)) => Ok((FieldValue::Integer(x), end)),
            }
        } else if tag == STRING_T {
            match StringValue::deserialize(bytes, pos + 1) {
                Err(e) => Err(e),
                Ok((sv, end)) => Ok((FieldValue::String(sv), end)),
            }
        } else if tag == LIST_T {
            match List::deserialize(bytes, pos + 1) {
                Err(e) => Err(e),
                Ok((l, end)) => Ok((FieldValue::List(l), end)),
            }
        } else if tag == OBJECT_T {
            match Object::deserialize(bytes, pos + 1) {
                Err(e) => Err(e),
                Ok((o, end)) => Ok((FieldValue::Object(o), end)),
            }
        } else {
            Err(DecodeError::UnknownTypeTag { tag })
        }
    }
}

impl List {
    /// Reads a list at `pos`: element tag, 2-byte count, then the elements.
    pub fn deserialize(bytes: &Vec<u8>, pos: usize) -> (r: Result<(List, usize), DecodeError>)
        requires
            pos <= bytes@.len(),
        ensures
            match r {
                Ok((l, end)) => pos < end <= bytes@.len() && dec_list(bytes@.skip(pos as int))
                    == Ok::<(crate::value::ListV, int), DecodeError>(
                    (crate::value::list_view(l), end - pos),
                ),
                Err(e) => dec_list(bytes@.skip(pos as int)) == Err::<
                    (crate::value::ListV, int),
                    DecodeError,
                >(e),
            },
        decreases bytes@.len() - pos, 2int, 0int,
    {
        let ghost b = bytes@.skip(pos as int);
        if bytes.len() - pos < 1 {
            return Err(DecodeError::TruncatedBuffer);
        }
        if bytes.len() - pos < 3 {
            return Err(DecodeError::TruncatedBuffer);
        }
        let tag = bytes[pos];
        let n = u16_read_be(bytes[pos + 1], bytes[pos + 2]) as usize;
        proof {
            assert(b.skip(3) =~= bytes@.skip(pos as int + 3));
        }
        if tag == INTEGER_T {
            match decode_integers(bytes, pos + 3, n) {
                Err(e) => Err(e),
                Ok((v, end)) => Ok((List::Integers(v), end)),
            }
        } else if tag == STRING_T {
            match decode_strings(bytes, pos + 3, n) {
                Err(e) => Err(e),
                Ok((v, end)) => Ok((List::Strings(v), end)),
            }
        } else if tag == OBJECT_T {
            match decode_objects(bytes, pos + 3, n) {
                Err(e) => Err(e),
                Ok((v, end)) => Ok((List::Objects(v), end)),
            }
        } else {
            Err(DecodeError::UnknownTypeTag { tag })
        }
    }
}

impl Object {
    /// Reads an object at `pos`: 1-byte field count, then its folded fields.
    pub fn deserialize(bytes: &Vec<u8>, pos: usize) -> (r: Result<(Object, usize), DecodeError>)
        requires
            pos <= bytes@.len(),
        ensures
            match r {
                Ok((o, end)) => pos < end <= bytes@.len() && dec_object(bytes@.skip(pos as int))
                    == Ok::<(crate::value::ObjectV, int), DecodeError>(
                    (obj_view(o), end - pos),
                ),
                Err(e) => dec_object(bytes@.skip(pos as int)) == Err::<
                    (crate::value::ObjectV, int),
                    DecodeError,
                >(e),
            },
        decreases bytes@.len() - pos, 1int, 0int,
    {
        let ghost b = bytes@.skip(pos as int);
        if bytes.len() - pos < 1 {
            return Err(DecodeError::TruncatedBuffer);
        }
        let cnt = bytes[pos] as usize;
        proof {
            assert(b.skip(1) =~= bytes@.skip(pos as int + 1));
            assert(fields_view(Seq::<(FieldName, FieldValue)>::empty())
                =~= Seq::<(Seq<u8>, crate::value::FieldValueV)>::empty());
        }
        match decode_fields(bytes, pos + 1, cnt, Vec::new()) {
            Err(e) => Err(e),
            Ok((flds, end)) => Ok((Object { fields: flds }, end)),
        }
    }
}

impl Header {
    /// Reads the 4 header bytes at `pos`.
    pub fn deserialize(bytes: &Vec<u8>, pos: usize) -> (r: Result<(Header, usize), DecodeError>)
        requires
            pos <= bytes@.len(),
        ensures
            match r {
                Ok((h, end)) => {
                    &&& end == pos + 4
                    &&& pos + 4 <= bytes@.len()
                    &&& h.version == bytes@[pos as int]
                    &&& h.field_count == bytes@[pos as int + 1]
                    &&& h.length == spec_u16_of_be(bytes@[pos as int + 2], bytes@[pos as int + 3])
                },
                Err(e) => bytes@.len() - pos < 4 && e == DecodeError::TruncatedBuffer,
            },
    {
        if bytes.len() - pos < 4 {
            return Err(DecodeError::TruncatedBuffer);
        }
        let h = Header {
            version: bytes[pos],
            field_count: bytes[pos + 1],
            length: u16_read_be(bytes[pos + 2], bytes[pos + 3]),
        };
        Ok((h, pos + 4))
    }
}

impl Message {
    /// Reads a whole message from the front of `bytes`: header, version gate,
    /// length pre-check, body, and the consumed-length cross-check. On
    /// success returns the message and the position of its first trailing
    /// byte, so several messages can be packed back to back.
    pub fn deserialize(bytes: &Vec<u8>) -> (r: Result<(Message, usize), DecodeError>)
        ensures
            match r {
                Ok((m, end)) => end <= bytes@.len() && dec_message(bytes@) == Ok::<
                    (crate::value::MessageV, int),
                    DecodeError,
                >((m@, end as int)),
                Err(e) => dec_message(bytes@) == Err::<(crate::value::MessageV, int), DecodeError>(
                    e,
                ),
            },
    {
        match Header::deserialize(bytes, 0) {
            Err(e) => Err(e),
            Ok((h, p1)) => {
                if h.version != VERSION1 {
                    return Err(DecodeError::UnsupportedVersion { found: h.version });
                }
                if h.length as usize > bytes.len() {
                    return Err(
                        DecodeError::BufferTooShort { declared: h.length, available: bytes.len() },
                    );
                }
                proof {
                    assert(fields_view(Seq::<(FieldName, FieldValue)>::empty())
                        =~= Seq::<(Seq<u8>, crate::value::FieldValueV)>::empty());
                }
                match decode_fields(bytes, 4, h.field_count as usize, Vec::new()) {
                    Err(e) => Err(e),
                    Ok((flds, end)) => {
                        if end != h.length as usize {
                            return Err(
                                DecodeError::LengthMismatch { declared: h.length, actual: end },
                            );
                        }
                        Ok((Message { header: h, body: flds }, end))
                    },
                }
            },
        }
    }
}

} // verus!
