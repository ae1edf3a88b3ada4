//! The format's guarantees, stated and proved once and for all: decoding an
//! encoding returns the original value (trailing bytes untouched), truncated
//! buffers always fail with a length-related error, the version byte gates
//! every buffer, unknown tags are rejected, a lying header length is caught,
//! and duplicate names fold last-write-wins.

use vstd::prelude::*;
use crate::endian::{spec_u16_be, spec_i64_be, lemma_u16_be_of_be, lemma_i64_be_of_be};
use crate::value::{
    Header, DecodeError, ListV, ObjectV, FieldValueV, MessageV, VERSION1, INTEGER_T, STRING_T,
    LIST_T, OBJECT_T, wf_name, wf_string, wf_strings, wf_fields, wf_object, wf_objects, wf_list,
    wf_value, unique_names, lemma_wf_fields_index, lemma_wf_objects_index, lemma_wf_strings_index,
};
use crate::wire::{
    enc_name, enc_string, enc_header, enc_integers, enc_strings, enc_objects, enc_object,
    enc_fields, enc_value, enc_list, enc_message, wf_message, upsert, lemma_upsert_absent,
    dec_i64, dec_name, dec_string, dec_integers, dec_strings, dec_objects, dec_object, dec_fields,
    dec_value, dec_list, dec_message,
};

verus! {

/// The fields from index `i` on, folded one by one into `acc` exactly as the
/// decoder folds them: last write wins.
pub open spec fn fold_from(
    acc: Seq<(Seq<u8>, FieldValueV)>,
    s: Seq<(Seq<u8>, FieldValueV)>,
    i: nat,
) -> Seq<(Seq<u8>, FieldValueV)>
    decreases s.len() - i,
{
    if i >= s.len() {
        acc
    } else {
        fold_from(upsert(acc, s[i as int].0, s[i as int].1), s, i + 1)
    }
}

proof fn lemma_rt_i64(x: i64, rest: Seq<u8>)
    ensures
        dec_i64(spec_i64_be(x) + rest) == Ok::<(i64, int), DecodeError>((x, 8)),
{
    let b = spec_i64_be(x) + rest;
    lemma_i64_be_of_be(x);
    assert(b.take(8) =~= spec_i64_be(x));
}

proof fn lemma_rt_name(n: Seq<u8>, rest: Seq<u8>)
    requires
        wf_name(n),
    ensures
        dec_name(enc_name(n) + rest) == Ok::<(Seq<u8>, int), DecodeError>((n, 1 + n.len() as int)),
{
    let b = enc_name(n) + rest;
    assert(b[0] == n.len() as u8);
    assert(b.skip(1) =~= n + rest);
    assert((n + rest).take(n.len() as int) =~= n);
}

proof fn lemma_rt_string(s: Seq<u8>, rest: Seq<u8>)
    requires
        wf_string(s),
    ensures
        dec_string(enc_string(s) + rest) == Ok::<(Seq<u8>, int), DecodeError>((s, 2 + s.len() as int)),
{
    let b = enc_string(s) + rest;
    lemma_u16_be_of_be(s.len() as u16);
    assert(b[0] == spec_u16_be(s.len() as u16)[0]);
    assert(b[1] == spec_u16_be(s.len() as u16)[1]);
    assert(b.skip(2) =~= s + rest);
    assert((s + rest).take(s.len() as int) =~= s);
}

proof fn lemma_rt_integers(v: Seq<i64>, i: nat, rest: Seq<u8>)
    requires
        i <= v.len(),
        v.len() <= 65535,
    ensures
        dec_integers(enc_integers(v, i) + rest, v.len() - i) == Ok::<
            (Seq<i64>, int),
            DecodeError,
        >((v.skip(i as int), enc_integers(v, i).len() as int)),
    decreases v.len() - i,
{
    let b = enc_integers(v, i) + rest;
    if i >= v.len() {
        assert(v.skip(i as int) =~= Seq::<i64>::empty());
    } else {
        let tail = enc_integers(v, i + 1) + rest;
        assert(b =~= spec_i64_be(v[i as int]) + tail);
        lemma_rt_i64(v[i as int], tail);
        assert(b.skip(8) =~= tail);
        lemma_rt_integers(v, i + 1, rest);
        assert(seq![v[i as int]] + v.skip(i as int + 1) =~= v.skip(i as int));
    }
}

proof fn lemma_rt_strings(v: Seq<Seq<u8>>, i: nat, rest: Seq<u8>)
    requires
        i <= v.len(),
        v.len() <= 65535,
        wf_strings(v),
    ensures
        dec_strings(enc_strings(v, i) + rest, v.len() - i) == Ok::<
            (Seq<Seq<u8>>, int),
            DecodeError,
        >((v.skip(i as int), enc_strings(v, i).len() as int)),
    decreases v.len() - i,
{
    let b = enc_strings(v, i) + rest;
    if i >= v.len() {
        assert(v.skip(i as int) =~= Seq::<Seq<u8>>::empty());
    } else {
        lemma_wf_strings_index(v);
        let s = v[i as int];
        let tail = enc_strings(v, i + 1) + rest;
        assert(b =~= enc_string(s) + tail);
        lemma_rt_string(s, tail);
        assert(b.skip(2 + s.len() as int) =~= tail);
        lemma_rt_strings(v, i + 1, rest);
        assert(seq![s] + v.skip(i as int + 1) =~= v.skip(i as int));
    }
}

#[verifier::rlimit(60)]
#[verifier::spinoff_prover]
proof fn lemma_rt_value(v: FieldValueV, rest: Seq<u8>)
    requires
        wf_value(v),
    ensures
        dec_value(enc_value(v) + rest) == Ok::<(FieldValueV, int), DecodeError>(
            (v, enc_value(v).len() as int),
        ),
        1 <= enc_value(v).len(),
    decreases v, 3int, 0int,
{
    let b = enc_value(v) + rest;
    match v {
        FieldValueV::Integer(x) => {
            let tail = spec_i64_be(x) + rest;
            assert(b[0] == INTEGER_T);
            assert(b.skip(1) =~= tail);
            lemma_rt_i64(x, rest);
        },
        FieldValueV::String(s) => {
            assert(b[0] == STRING_T);
            assert(b.skip(1) =~= enc_string(s) + rest);
            lemma_rt_string(s, rest);
        },
        FieldValueV::List(l) => {
            assert(b[0] == LIST_T);
            assert(b.skip(1) =~= enc_list(l) + rest);
            lemma_rt_list(l, rest);
        },
        FieldValueV::Object(o) => {
            assert(b[0] == OBJECT_T);
            assert(b.skip(1) =~= enc_object(o) + rest);
            lemma_rt_object(o, rest);
        },
    }
}

#[verifier::rlimit(60)]
#[verifier::spinoff_prover]
proof fn lemma_rt_list(l: ListV, rest: Seq<u8>)
    requires
        wf_list(l),
    ensures
        dec_list(enc_list(l) + rest) == Ok::<(ListV, int), DecodeError>(
            (l, enc_list(l).len() as int),
        ),
        3 <= enc_list(l).len(),
    decreases l, 2int, 0int,
{
    let b = enc_list(l) + rest;
    match l {
        ListV::Integers(v) => {
            lemma_u16_be_of_be(v.len() as u16);
            assert(b[0] == INTEGER_T);
            assert(b[1] == spec_u16_be(v.len() as u16)[0]);
            assert(b[2] == spec_u16_be(v.len() as u16)[1]);
            assert(b.skip(3) =~= enc_integers(v, 0) + rest);
            lemma_rt_integers(v, 0, rest);
            assert(v.skip(0) =~= v);
        },
        ListV::Strings(v) => {
            lemma_u16_be_of_be(v.len() as u16);
            assert(b[0] == STRING_T);
            assert(b[1] == spec_u16_be(v.len() as u16)[0]);
            assert(b[2] == spec_u16_be(v.len() as u16)[1]);
            assert(b.skip(3) =~= enc_strings(v, 0) + rest);
            lemma_rt_strings(v, 0, rest);
            assert(v.skip(0) =~= v);
        },
        ListV::Objects(v) => {
            lemma_u16_be_of_be(v.len() as u16);
            assert(b[0] == OBJECT_T);
            assert(b[1] == spec_u16_be(v.len() as u16)[0]);
            assert(b[2] == spec_u16_be(v.len() as u16)[1]);
            assert(b.skip(3) =~= enc_objects(v, 0) + rest);
            lemma_rt_objects(v, 0, rest);
            assert(v.skip(0) =~= v);
        },
    }
}

proof fn lemma_rt_objects(v: Seq<ObjectV>, i: nat, rest: Seq<u8>)
    requires
        i <= v.len(),
        wf_objects(v),
    ensures
        dec_objects(enc_objects(v, i) + rest, v.len() - i) == Ok::<
            (Seq<ObjectV>, int),
            DecodeError,
        >((v.skip(i as int), enc_objects(v, i).len() as int)),
    decreases v, 1int, v.len() - i,
{
    let b = enc_objects(v, i) + rest;
    if i >= v.len() {
        assert(v.skip(i as int) =~= Seq::<ObjectV>::empty());
    } else {
        lemma_wf_objects_index(v);
        let o = v[i as int];
        let tail = enc_objects(v, i + 1) + rest;
        assert(b =~= enc_object(o) + tail);
        lemma_rt_object(o, tail);
        assert(b.skip(enc_object(o).len() as int) =~= tail);
        lemma_rt_objects(v, i + 1, rest);
        assert(seq![o] + v.skip(i as int + 1) =~= v.skip(i as int));
    }
}

proof fn lemma_rt_object(o: ObjectV, rest: Seq<u8>)
    requires
        wf_object(o),
    ensures
        dec_object(enc_object(o) + rest) == Ok::<(ObjectV, int), DecodeError>(
            (o, enc_object(o).len() as int),
        ),
        1 <= enc_object(o).len(),
    decreases o, 2int, 0int,
{
    let b = enc_object(o) + rest;
    assert(b[0] == o.fields.len() as u8);
    assert(b.skip(1) =~= enc_fields(o.fields, 0) + rest);
    lemma_rt_fields(o.fields, 0, rest, Seq::empty());
    lemma_fold_from_unique(o.fields, 0);
    assert(o.fields.take(0) =~= Seq::<(Seq<u8>, FieldValueV)>::empty());
    assert(ObjectV { fields: fold_from(Seq::empty(), o.fields, 0) } == o);
}

#[verifier::rlimit(60)]
#[verifier::spinoff_prover]
proof fn lemma_rt_fields(
    s: Seq<(Seq<u8>, FieldValueV)>,
    i: nat,
    rest: Seq<u8>,
    acc: Seq<(Seq<u8>, FieldValueV)>,
)
    requires
        i <= s.len(),
        wf_fields(s),
    ensures
        dec_fields(enc_fields(s, i) + rest, s.len() - i, acc) == Ok::<
            (Seq<(Seq<u8>, FieldValueV)>, int),
            DecodeError,
        >((fold_from(acc, s, i), enc_fields(s, i).len() as int)),
    decreases s, 1int, s.len() - i,
{
    let b = enc_fields(s, i) + rest;
    if i < s.len() {
        lemma_wf_fields_index(s);
        let k = s[i as int].0;
        let v = s[i as int].1;
        let tail1 = enc_value(v) + enc_fields(s, i + 1) + rest;
        assert(b =~= enc_name(k) + tail1);
        lemma_rt_name(k, tail1);
        let c1 = 1 + k.len() as int;
        let tail2 = enc_fields(s, i + 1) + rest;
        assert(b.skip(c1) =~= enc_value(v) + tail2);
        lemma_rt_value(v, tail2);
        let c2 = enc_value(v).len() as int;
        assert(b.skip(c1 + c2) =~= tail2);
        lemma_rt_fields(s, i + 1, rest, upsert(acc, k, v));
    }
}

/// Folding a sequence of uniquely-named fields reproduces the sequence.
proof fn lemma_fold_from_unique(s: Seq<(Seq<u8>, FieldValueV)>, i: nat)
    requires
        i <= s.len(),
        unique_names(s),
    ensures
        fold_from(s.take(i as int), s, i) == s,
    decreases s.len() - i,
{
    if i >= s.len() {
        assert(s.take(i as int) =~= s);
    } else {
        let k = s[i as int].0;
        let v = s[i as int].1;
        let acc = s.take(i as int);
        assert forall|j: int| 0 <= j < acc.len() implies acc[j].0 != k by {
            assert(acc[j] == s[j]);
        }
        lemma_upsert_absent(acc, k, v);
        assert(acc.push((k, v)) =~= s.take(i as int + 1));
        lemma_fold_from_unique(s, i + 1);
    }
}

/// Decoding an encoded message followed by any trailing bytes returns the
/// message unchanged and leaves the trailing bytes unconsumed.
pub proof fn lemma_trailing_round_trip(m: MessageV, rest: Seq<u8>)
    requires
        wf_message(m),
    ensures
        dec_message(enc_message(m) + rest) == Ok::<(MessageV, int), DecodeError>(
            (m, enc_message(m).len() as int),
        ),
{
    let b = enc_message(m) + rest;
    let h = m.header;
    lemma_u16_be_of_be(h.length);
    assert(b[0] == h.version);
    assert(b[1] == h.field_count);
    assert(b[2] == spec_u16_be(h.length)[0]);
    assert(b[3] == spec_u16_be(h.length)[1]);
    assert(b.skip(4) =~= enc_fields(m.body, 0) + rest);
    lemma_rt_fields(m.body, 0, rest, Seq::empty());
    lemma_fold_from_unique(m.body, 0);
    assert(m.body.take(0) =~= Seq::<(Seq<u8>, FieldValueV)>::empty());
}

/// Decoding an encoded message returns exactly the message, consuming the
/// whole buffer.
pub proof fn lemma_round_trip(m: MessageV)
    requires
        wf_message(m),
    ensures
        dec_message(enc_message(m)) == Ok::<(MessageV, int), DecodeError>(
            (m, enc_message(m).len() as int),
        ),
{
    lemma_trailing_round_trip(m, Seq::empty());
    assert(enc_message(m) + Seq::empty() =~= enc_message(m));
}

/// Truncating a valid encoded message to any shorter length always fails,
/// and with a length error: the missing-header case is a truncation, every
/// other cut is caught by the header's length pre-check.
pub proof fn lemma_truncation_safety(m: MessageV, k: int)
    requires
        wf_message(m),
        0 <= k < enc_message(m).len(),
    ensures
        k < 4 ==> dec_message(enc_message(m).take(k)) == Err::<(MessageV, int), DecodeError>(
            DecodeError::TruncatedBuffer,
        ),
        k >= 4 ==> dec_message(enc_message(m).take(k)) == Err::<(MessageV, int), DecodeError>(
            (DecodeError::BufferTooShort { declared: m.header.length, available: k as usize }),
        ),
{
    let t = enc_message(m).take(k);
    if k >= 4 {
        let h = m.header;
        lemma_u16_be_of_be(h.length);
        assert(enc_message(m)[0] == h.version);
        assert(enc_message(m)[1] == h.field_count);
        assert(enc_message(m)[2] == spec_u16_be(h.length)[0]);
        assert(enc_message(m)[3] == spec_u16_be(h.length)[1]);
        assert(t[0] == h.version && t[2] == spec_u16_be(h.length)[0] && t[3] == spec_u16_be(
            h.length,
        )[1]);
        assert(h.length as int == enc_message(m).len() > t.len());
    }
}

/// Any buffer of at least header size whose first byte is not the supported
/// version fails with that version, whatever the rest of the buffer holds.
pub proof fn lemma_version_gate(b: Seq<u8>)
    requires
        b.len() >= 4,
        b[0] != VERSION1,
    ensures
        dec_message(b) == Err::<(MessageV, int), DecodeError>(
            (DecodeError::UnsupportedVersion { found: b[0] }),
        ),
{
}

/// A field-value tag byte outside the four defined tags is rejected as
/// unknown, whatever follows it.
pub proof fn lemma_value_tag_exhaustive(b: Seq<u8>)
    requires
        b.len() >= 1,
        b[0] != INTEGER_T,
        b[0] != STRING_T,
        b[0] != LIST_T,
        b[0] != OBJECT_T,
    ensures
        dec_value(b) == Err::<(FieldValueV, int), DecodeError>(
            (DecodeError::UnknownTypeTag { tag: b[0] }),
        ),
{
}

/// A list element tag byte outside the three defined element tags is
/// rejected as unknown once the element count could be read.
pub proof fn lemma_list_tag_exhaustive(b: Seq<u8>)
    requires
        b.len() >= 3,
        b[0] != INTEGER_T,
        b[0] != STRING_T,
        b[0] != OBJECT_T,
    ensures
        dec_list(b) == Err::<(ListV, int), DecodeError>(
            (DecodeError::UnknownTypeTag { tag: b[0] }),
        ),
{
}

/// Altering a well-formed message's header length to any other value the
/// buffer can still satisfy makes decoding fail with a length mismatch that
/// reports the altered and the true length.
pub proof fn lemma_length_mismatch(m: MessageV, alt: u16)
    requires
        wf_message(m),
        alt != m.header.length,
        alt as int <= enc_message(m).len(),
    ensures
        dec_message(
            enc_message(
                MessageV {
                    header: Header {
                        version: m.header.version,
                        field_count: m.header.field_count,
                        length: alt,
                    },
                    body: m.body,
                },
            ),
        ) == Err::<(MessageV, int), DecodeError>(
            (DecodeError::LengthMismatch {
                declared: alt,
                actual: m.header.length as usize,
            }),
        ),
{
    let h2 = Header {
        version: m.header.version,
        field_count: m.header.field_count,
        length: alt,
    };
    let m2 = MessageV { header: h2, body: m.body };
    let b = enc_message(m2);
    assert(b.len() == enc_message(m).len());
    lemma_u16_be_of_be(alt);
    assert(b[0] == h2.version);
    assert(b[1] == h2.field_count);
    assert(b[2] == spec_u16_be(alt)[0]);
    assert(b[3] == spec_u16_be(alt)[1]);
    assert(b.skip(4) =~= enc_fields(m.body, 0) + Seq::<u8>::empty());
    lemma_rt_fields(m.body, 0, Seq::empty(), Seq::empty());
    lemma_fold_from_unique(m.body, 0);
    assert(m.body.take(0) =~= Seq::<(Seq<u8>, FieldValueV)>::empty());
    assert(4 + enc_fields(m.body, 0).len() == m.header.length as int);
}

/// A buffer declaring two fields that share one name decodes successfully
/// into a single field holding the second value: last write wins.
pub proof fn lemma_duplicate_key_fold(k: Seq<u8>, v1: FieldValueV, v2: FieldValueV)
    requires
        wf_name(k),
        wf_value(v1),
        wf_value(v2),
        4 + 2 * enc_name(k).len() + enc_value(v1).len() + enc_value(v2).len() <= 65535,
    ensures
        ({
            let total = 4 + 2 * enc_name(k).len() + enc_value(v1).len() + enc_value(v2).len();
            let h = Header { version: VERSION1, field_count: 2, length: total as u16 };
            let b = enc_header(h) + enc_name(k) + enc_value(v1) + enc_name(k) + enc_value(v2);
            dec_message(b) == Ok::<(MessageV, int), DecodeError>(
                (MessageV { header: h, body: seq![(k, v2)] }, total as int),
            )
        }),
{
    let total = 4 + 2 * enc_name(k).len() + enc_value(v1).len() + enc_value(v2).len();
    let h = Header { version: VERSION1, field_count: 2, length: total as u16 };
    let b = enc_header(h) + enc_name(k) + enc_value(v1) + enc_name(k) + enc_value(v2);
    let s = seq![(k, v1), (k, v2)];
    let s1 = seq![(k, v1)];
    assert(wf_fields(Seq::<(Seq<u8>, FieldValueV)>::empty()));
    assert(s1.drop_last() =~= Seq::<(Seq<u8>, FieldValueV)>::empty());
    assert(s1.last() == (k, v1));
    assert(wf_fields(s1));
    assert(s.drop_last() =~= s1);
    assert(s.last() == (k, v2));
    assert(wf_fields(s));
    lemma_u16_be_of_be(total as u16);
    assert(b[0] == h.version);
    assert(b[1] == h.field_count);
    assert(b[2] == spec_u16_be(h.length)[0]);
    assert(b[3] == spec_u16_be(h.length)[1]);
    assert(enc_fields(s, 2) =~= Seq::<u8>::empty());
    assert(enc_fields(s, 1) =~= enc_name(k) + enc_value(v2));
    assert(enc_fields(s, 0) =~= enc_name(k) + enc_value(v1) + enc_name(k) + enc_value(v2));
    assert(b.skip(4) =~= enc_fields(s, 0) + Seq::<u8>::empty());
    lemma_rt_fields(s, 0, Seq::empty(), Seq::empty());
    assert(fold_from(Seq::empty(), s, 0) == upsert(upsert(Seq::empty(), k, v1), k, v2)) by {
        reveal_with_fuel(fold_from, 4);
    }
    assert(upsert(Seq::<(Seq<u8>, FieldValueV)>::empty(), k, v1) =~= seq![(k, v1)]);
    assert(upsert(seq![(k, v1)], k, v2) =~= seq![(k, v2)] + seq![(k, v1)].skip(1));
    assert(seq![(k, v2)] + seq![(k, v1)].skip(1) =~= seq![(k, v2)]);
    assert(b.len() == total);
}

} // verus!
