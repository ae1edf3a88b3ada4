//! The wire format itself, stated mathematically: what byte sequence each
//! value encodes to, and what value (and how many bytes) a decode of a byte
//! sequence yields. The executable encoder and decoder are specified and
//! proved against these functions.

use vstd::prelude::*;
use crate::endian::{spec_u16_be, spec_u16_of_be, spec_i64_be, spec_i64_of_be};
use crate::utf8::utf8_ok;
use crate::value::{
    Header, DecodeError, ListV, ObjectV, FieldValueV, MessageV, VERSION1, INTEGER_T, STRING_T,
    LIST_T, OBJECT_T, wf_fields, unique_names,
};

verus! {

/// A field name on the wire: 1-byte length prefix, then the text.
pub open spec fn enc_name(n: Seq<u8>) -> Seq<u8> {
    seq![n.len() as u8] + n
}

/// A string value on the wire: 2-byte big-endian length prefix, then the text.
pub open spec fn enc_string(s: Seq<u8>) -> Seq<u8> {
    spec_u16_be(s.len() as u16) + s
}

/// A header on the wire: version, field count, 2-byte big-endian length.
pub open spec fn enc_header(h: Header) -> Seq<u8> {
    seq![h.version, h.field_count] + spec_u16_be(h.length)
}

/// The integer elements of a list from index `i` on, concatenated.
pub open spec fn enc_integers(s: Seq<i64>, i: nat) -> Seq<u8>
    decreases s.len() - i,
{
    if i >= s.len() {
        Seq::empty()
    } else {
        spec_i64_be(s[i as int]) + enc_integers(s, i + 1)
    }
}

/// The string elements of a list from index `i` on, concatenated.
pub open spec fn enc_strings(s: Seq<Seq<u8>>, i: nat) -> Seq<u8>
    decreases s.len() - i,
{
    if i >= s.len() {
        Seq::empty()
    } else {
        enc_string(s[i as int]) + enc_strings(s, i + 1)
    }
}

/// A field value on the wire: its tag byte, then its payload.
pub open spec fn enc_value(v: FieldValueV) -> Seq<u8>
    decreases v, 3int, 0nat,
{
    match v {
        FieldValueV::Integer(i) => seq![INTEGER_T] + spec_i64_be(i),
        FieldValueV::String(s) => seq![STRING_T] + enc_string(s),
        FieldValueV::List(l) => seq![LIST_T] + enc_list(l),
        FieldValueV::Object(o) => seq![OBJECT_T] + enc_object(o),
    }
}

/// A list on the wire: element tag, 2-byte element count, then the elements.
pub open spec fn enc_list(l: ListV) -> Seq<u8>
    decreases l, 2int, 0nat,
{
    match l {
        ListV::Integers(v) => seq![INTEGER_T] + spec_u16_be(v.len() as u16) + enc_integers(v, 0),
        ListV::Strings(v) => seq![STRING_T] + spec_u16_be(v.len() as u16) + enc_strings(v, 0),
        ListV::Objects(v) => seq![OBJECT_T] + spec_u16_be(v.len() as u16) + enc_objects(v, 0),
    }
}

/// The object elements of a list from index `i` on, concatenated.
pub open spec fn enc_objects(s: Seq<ObjectV>, i: nat) -> Seq<u8>
    decreases s, 1int, s.len() - i,
{
    if i >= s.len() {
        Seq::empty()
    } else {
        enc_object(s[i as int]) + enc_objects(s, i + 1)
    }
}

/// An object on the wire: 1-byte field count, then its fields.
pub open spec fn enc_object(o: ObjectV) -> Seq<u8>
    decreases o, 2int, 0nat,
{
    seq![o.fields.len() as u8] + enc_fields(o.fields, 0)
}

/// The fields of an object or message body from index `i` on, concatenated:
/// each a name followed by a value.
pub open spec fn enc_fields(s: Seq<(Seq<u8>, FieldValueV)>, i: nat) -> Seq<u8>
    decreases s, 1int, s.len() - i,
{
    if i >= s.len() {
        Seq::empty()
    } else {
        enc_name(s[i as int].0) + enc_value(s[i as int].1) + enc_fields(s, i + 1)
    }
}

/// A message on the wire: header, then the body's fields with no count byte
/// of their own (the count lives in the header).
pub open spec fn enc_message(m: MessageV) -> Seq<u8> {
    enc_header(m.header) + enc_fields(m.body, 0)
}

/// Whether a message is internally consistent: supported version, a field
/// count that matches the body, well-formed uniquely-named fields, and a
/// declared length that equals the exact encoded length.
pub open spec fn wf_message(m: MessageV) -> bool {
    &&& m.header.version == VERSION1
    &&& m.header.field_count as int == m.body.len()
    &&& wf_fields(m.body)
    &&& unique_names(m.body)
    &&& m.header.length as int == enc_message(m).len()
}

/// Folds one decoded field into those decoded before it: a repeated name
/// keeps its first position but takes the later value; a new name is
/// appended. Last write wins.
pub open spec fn upsert(
    s: Seq<(Seq<u8>, FieldValueV)>,
    k: Seq<u8>,
    v: FieldValueV,
) -> Seq<(Seq<u8>, FieldValueV)>
    decreases s.len(),
{
    if s.len() == 0 {
        seq![(k, v)]
    } else if s[0].0 == k {
        seq![(k, v)] + s.skip(1)
    } else {
        seq![s[0]] + upsert(s.skip(1), k, v)
    }
}

pub proof fn lemma_upsert_found(s: Seq<(Seq<u8>, FieldValueV)>, k: Seq<u8>, v: FieldValueV, idx: int)
    requires
        0 <= idx < s.len(),
        s[idx].0 == k,
        forall|j: int| 0 <= j < idx ==> s[j].0 != k,
    ensures
        upsert(s, k, v) == s.update(idx, (k, v)),
    decreases idx,
{
    if idx == 0 {
        assert(seq![(k, v)] + s.skip(1) =~= s.update(0, (k, v)));
    } else {
        assert(s[0].0 != k);
        assert forall|j: int| 0 <= j < idx - 1 implies s.skip(1)[j].0 != k by {
            assert(s.skip(1)[j] == s[j + 1]);
        }
        assert(s.skip(1)[idx - 1] == s[idx]);
        lemma_upsert_found(s.skip(1), k, v, idx - 1);
        assert(seq![s[0]] + s.skip(1).update(idx - 1, (k, v)) =~= s.update(idx, (k, v)));
    }
}

pub proof fn lemma_upsert_absent(s: Seq<(Seq<u8>, FieldValueV)>, k: Seq<u8>, v: FieldValueV)
    requires
        forall|j: int| 0 <= j < s.len() ==> s[j].0 != k,
    ensures
        upsert(s, k, v) == s.push((k, v)),
    decreases s.len(),
{
    if s.len() == 0 {
        assert(seq![(k, v)] =~= s.push((k, v)));
    } else {
        assert forall|j: int| 0 <= j < s.skip(1).len() implies s.skip(1)[j].0 != k by {
            assert(s.skip(1)[j] == s[j + 1]);
        }
        lemma_upsert_absent(s.skip(1), k, v);
        assert(seq![s[0]] + s.skip(1).push((k, v)) =~= s.push((k, v)));
    }
}

/// Decode of an 8-byte big-endian two's-complement integer.
pub open spec fn dec_i64(b: Seq<u8>) -> Result<(i64, int), DecodeError> {
    if b.len() < 8 {
        Err(DecodeError::TruncatedBuffer)
    } else {
        Ok((spec_i64_of_be(b.take(8)), 8))
    }
}

/// Decode of `n` bytes of UTF-8 text whose count the caller supplies.
pub open spec fn dec_text(b: Seq<u8>, n: int) -> Result<(Seq<u8>, int), DecodeError> {
    if b.len() < n {
        Err(DecodeError::TruncatedBuffer)
    } else if !utf8_ok(b.take(n)) {
        Err(DecodeError::InvalidUtf8)
    } else {
        Ok((b.take(n), n))
    }
}

/// Decode of a field name: 1-byte length prefix, then that many text bytes.
pub open spec fn dec_name(b: Seq<u8>) -> Result<(Seq<u8>, int), DecodeError> {
    if b.len() < 1 {
        Err(DecodeError::TruncatedBuffer)
    } else {
        match dec_text(b.skip(1), b[0] as int) {
            Ok((s, c)) => Ok((s, 1 + c)),
            Err(e) => Err(e),
        }
    }
}

/// Decode of a string value: 2-byte length prefix, then that many text bytes.
pub open spec fn dec_string(b: Seq<u8>) -> Result<(Seq<u8>, int), DecodeError> {
    if b.len() < 2 {
        Err(DecodeError::TruncatedBuffer)
    } else {
        match dec_text(b.skip(2), spec_u16_of_be(b[0], b[1]) as int) {
            Ok((s, c)) => Ok((s, 2 + c)),
            Err(e) => Err(e),
        }
    }
}

/// Decode of `n` consecutive integer elements.
pub open spec fn dec_integers(b: Seq<u8>, n: int) -> Result<(Seq<i64>, int), DecodeError>
    decreases n,
{
    if n <= 0 {
        Ok((Seq::empty(), 0))
    } else {
        match dec_i64(b) {
            Err(e) => Err(e),
            Ok((x, c)) => match dec_integers(b.skip(c), n - 1) {
                Err(e) => Err(e),
                Ok((v, c2)) => Ok((seq![x] + v, c + c2)),
            },
        }
    }
}

/// Decode of `n` consecutive string elements.
pub open spec fn dec_strings(b: Seq<u8>, n: int) -> Result<(Seq<Seq<u8>>, int), DecodeError>
    decreases n,
{
    if n <= 0 {
        Ok((Seq::empty(), 0))
    } else {
        match dec_string(b) {
            Err(e) => Err(e),
            Ok((s, c)) => match dec_strings(b.skip(c), n - 1) {
                Err(e) => Err(e),
                Ok((v, c2)) => Ok((seq![s] + v, c + c2)),
            },
        }
    }
}

/// Decode of a field value: a tag byte, then the tagged payload.
pub open spec fn dec_value(b: Seq<u8>) -> Result<(FieldValueV, int), DecodeError>
    decreases b.len(), 3int, 0int,
{
    if b.len() < 1 {
        Err(DecodeError::TruncatedBuffer)
    } else {
        let tag = b[0];
        let rest = b.skip(1);
        if tag == INTEGER_T {
            match dec_i64(rest) {
                Err(e) => Err(e),
                Ok((x, c)) => Ok((FieldValueV::Integer(x), 1 + c)),
            }
        } else if tag == STRING_T {
            match dec_string(rest) {
                Err(e) => Err(e),
                Ok((s, c)) => Ok((FieldValueV::String(s), 1 + c)),
            }
        } else if tag == LIST_T {
            match dec_list(rest) {
                Err(e) => Err(e),
                Ok((l, c)) => Ok((FieldValueV::List(l), 1 + c)),
            }
        } else if tag == OBJECT_T {
            match dec_object(rest) {
                Err(e) => Err(e),
                Ok((o, c)) => Ok((FieldValueV::Object(o), 1 + c)),
            }
        } else {
            Err(DecodeError::UnknownTypeTag { tag })
        }
    }
}

/// Decode of a list: element tag, 2-byte count, then that many elements.
pub open spec fn dec_list(b: Seq<u8>) -> Result<(ListV, int), DecodeError>
    decreases b.len(), 2int, 0int,
{
    if b.len() < 1 {
        Err(DecodeError::TruncatedBuffer)
    } else if b.len() < 3 {
        Err(DecodeError::TruncatedBuffer)
    } else {
        let tag = b[0];
        let n = spec_u16_of_be(b[1], b[2]) as int;
        let rest = b.skip(3);
        if tag == INTEGER_T {
            match dec_integers(rest, n) {
                Err(e) => Err(e),
                Ok((v, c)) => Ok((ListV::Integers(v), 3 + c)),
            }
        } else if tag == STRING_T {
            match dec_strings(rest, n) {
                Err(e) => Err(e),
                Ok((v, c)) => Ok((ListV::Strings(v), 3 + c)),
            }
        } else if tag == OBJECT_T {
            match dec_objects(rest, n) {
                Err(e) => Err(e),
                Ok((v, c)) => Ok((ListV::Objects(v), 3 + c)),
            }
        } else {
            Err(DecodeError::UnknownTypeTag { tag })
        }
    }
}

/// Decode of `n` consecutive object elements. A successful element decode
/// always consumes between 1 byte and the whole remainder; the bound is
/// tested here so that the recursion visibly shrinks the buffer.
pub open spec fn dec_objects(b: Seq<u8>, n: int) -> Result<(Seq<ObjectV>, int), DecodeError>
    decreases b.len(), 2int, n,
{
    if n <= 0 {
        Ok((Seq::empty(), 0))
    } else {
        match dec_object(b) {
            Err(e) => Err(e),
            Ok((o, c)) => if 1 <= c <= b.len() {
                match dec_objects(b.skip(c), n - 1) {
                    Err(e) => Err(e),
                    Ok((v, c2)) => Ok((seq![o] + v, c + c2)),
                }
            } else {
                Err(DecodeError::TruncatedBuffer)
            },
        }
    }
}

/// Decode of an object: 1-byte field count, then that many folded fields.
pub open spec fn dec_object(b: Seq<u8>) -> Result<(ObjectV, int), DecodeError>
    decreases b.len(), 1int, 0int,
{
    if b.len() < 1 {
        Err(DecodeError::TruncatedBuffer)
    } else {
        match dec_fields(b.skip(1), b[0] as int, Seq::empty()) {
            Err(e) => Err(e),
            Ok((flds, c)) => Ok((ObjectV { fields: flds }, 1 + c)),
        }
    }
}

/// Decode of `n` consecutive name/value fields, folded last-write-wins into
/// the fields decoded before them. As in `dec_objects`, the consumed counts
/// of successful sub-decodes are tested so that the recursion visibly
/// shrinks the buffer.
pub open spec fn dec_fields(
    b: Seq<u8>,
    n: int,
    acc: Seq<(Seq<u8>, FieldValueV)>,
) -> Result<(Seq<(Seq<u8>, FieldValueV)>, int), DecodeError>
    decreases b.len(), 3int, n,
{
    if n <= 0 {
        Ok((acc, 0))
    } else {
        match dec_name(b) {
            Err(e) => Err(e),
            Ok((k, c1)) => if 1 <= c1 <= b.len() {
                match dec_value(b.skip(c1)) {
                    Err(e) => Err(e),
                    Ok((v, c2)) => if 0 <= c2 && c1 + c2 <= b.len() {
                        match dec_fields(b.skip(c1 + c2), n - 1, upsert(acc, k, v)) {
                            Err(e) => Err(e),
                            Ok((flds, c3)) => Ok((flds, c1 + c2 + c3)),
                        }
                    } else {
                        Err(DecodeError::TruncatedBuffer)
                    },
                }
            } else {
                Err(DecodeError::TruncatedBuffer)
            },
        }
    }
}

/// Decode of a whole message: header, version gate, length pre-check, body,
/// and the final consumed-length cross-check.
pub open spec fn dec_message(b: Seq<u8>) -> Result<(MessageV, int), DecodeError> {
    if b.len() < 4 {
        Err(DecodeError::TruncatedBuffer)
    } else {
        let h = Header { version: b[0], field_count: b[1], length: spec_u16_of_be(b[2], b[3]) };
        if h.version != VERSION1 {
            Err(DecodeError::UnsupportedVersion { found: h.version })
        } else if h.length as int > b.len() {
            Err(DecodeError::BufferTooShort { declared: h.length, available: b.len() as usize })
        } else {
            match dec_fields(b.skip(4), h.field_count as int, Seq::empty()) {
                Err(e) => Err(e),
                Ok((flds, c)) => if 4 + c != h.length as int {
                    Err(DecodeError::LengthMismatch {
                        declared: h.length,
                        actual: (4 + c) as usize,
                    })
                } else {
                    Ok((MessageV { header: h, body: flds }, 4 + c))
                },
            }
        }
    }
}

} // verus!
