//! The executable encoder: walks a message tree depth-first and appends each
//! value's wire bytes to an output buffer, proved to produce exactly the
//! byte sequence the wire specification defines.

use vstd::prelude::*;
use crate::endian::{u16_write_be, i64_write_be};
use crate::value::{
    Header, FieldName, StringValue, List, Object, FieldValue, Message, strs_view, fields_view,
    objs_view, obj_view, fv_view, lemma_fields_view_index, lemma_objs_view_index, wf_objects,
    lemma_wf_fields_index, lemma_wf_objects_index, lemma_wf_strings_index, wf_name, wf_string,
    wf_strings, wf_fields, wf_object, wf_list, wf_value, INTEGER_T, STRING_T, LIST_T, OBJECT_T,
};
use crate::wire::{
    enc_name, enc_string, enc_header, enc_integers, enc_strings, enc_objects, enc_fields,
    enc_value, enc_list, enc_object, enc_message, wf_message,
};

verus! {

/// Appends a copy of `src` to `out`.
fn write_bytes(src: &Vec<u8>, out: &mut Vec<u8>)
    ensures
        final(out)@ == old(out)@ + src@,
{
    let ghost out0 = out@;
    let mut i: usize = 0;
    while i < src.len()
        invariant
            i <= src@.len(),
            out@ == out0 + src@.take(i as int),
        decreases src@.len() - i,
    {
        out.push(src[i]);
        proof {
            assert(out@ =~= out0 + src@.take(i + 1));
        }
        i = i + 1;
    }
    proof {
        assert(out@ =~= out0 + src@);
    }
}

/// Appends a field name: its 1-byte length, then its text.
pub fn write_name(n: &FieldName, out: &mut Vec<u8>)
    requires
        wf_name(n@),
    ensures
        final(out)@ == old(out)@ + enc_name(n@),
{
    out.push(n.bytes.len() as u8);
    write_bytes(&n.bytes, out);
    proof {
        assert(out@ =~= old(out)@ + enc_name(n@));
    }
}

/// Appends a string value: its 2-byte length, then its text.
pub fn write_string(s: &StringValue, out: &mut Vec<u8>)
    requires
        wf_string(s@),
    ensures
        final(out)@ == old(out)@ + enc_string(s@),
{
    u16_write_be(s.bytes.len() as u16, out);
    write_bytes(&s.bytes, out);
    proof {
        assert(out@ =~= old(out)@ + enc_string(s@));
    }
}

/// Appends a header's 4 bytes.
pub fn write_header(h: &Header, out: &mut Vec<u8>)
    ensures
        final(out)@ == old(out)@ + enc_header(*h),
{
    out.push(h.version);
    out.push(h.field_count);
    u16_write_be(h.length, out);
    proof {
        assert(out@ =~= old(out)@ + enc_header(*h));
    }
}

/// Appends the integer elements of a list from index `i` on.
fn write_integers(v: &Vec<i64>, i: usize, out: &mut Vec<u8>)
    requires
        i <= v@.len(),
    ensures
        final(out)@ == old(out)@ + enc_integers(v@, i as nat),
    decreases v@.len() - i,
{
    if i < v.len() {
        i64_write_be(v[i], out);
        write_integers(v, i + 1, out);
        proof {
            assert(out@ =~= old(out)@ + enc_integers(v@, i as nat));
        }
    } else {
        proof {
            assert(out@ =~= old(out)@ + enc_integers(v@, i as nat));
        }
    }
}

/// Appends the string elements of a list from index `i` on.
fn write_strings(v: &Vec<StringValue>, i: usize, out: &mut Vec<u8>)
    requires
        i <= v@.len(),
        wf_strings(strs_view(v@)),
    ensures
        final(out)@ == old(out)@ + enc_strings(strs_view(v@), i as nat),
    decreases v@.len() - i,
{
    if i < v.len() {
        proof {
            lemma_wf_strings_index(strs_view(v@));
        }
        write_string(&v[i], out);
        write_strings(v, i + 1, out);
        proof {
            assert(out@ =~= old(out)@ + enc_strings(strs_view(v@), i as nat));
        }
    } else {
        proof {
            assert(out@ =~= old(out)@ + enc_strings(strs_view(v@), i as nat));
        }
    }
}

/// Appends a field value: its tag byte, then its payload.
pub fn write_value(v: &FieldValue, out: &mut Vec<u8>)
    requires
        wf_value(v@),
    ensures
        final(out)@ == old(out)@ + enc_value(v@),
    decreases v, 3int, 0nat,
{
    match v {
        FieldValue::Integer(x) => {
            out.push(INTEGER_T);
            i64_write_be(*x, out);
        },
        FieldValue::String(s) => {
            out.push(STRING_T);
            write_string(s, out);
        },
        FieldValue::List(l) => {
            out.push(LIST_T);
            write_list(l, out);
        },
        FieldValue::Object(o) => {
            out.push(OBJECT_T);
            write_object(o, out);
        },
    }
    proof {
        assert(out@ =~= old(out)@ + enc_value(v@));
    }
}

/// Appends a list: element tag, 2-byte count, then the elements.
pub fn write_list(l: &List, out: &mut Vec<u8>)
    requires
        wf_list(l@),
    ensures
        final(out)@ == old(out)@ + enc_list(l@),
    decreases l, 2int, 0nat,
{
    match l {
        List::Integers(v) => {
            out.push(INTEGER_T);
            u16_write_be(v.len() as u16, out);
            write_integers(v, 0, out);
        },
        List::Strings(v) => {
            proof {
                assert(strs_view(v@).len() == v@.len());
            }
            out.push(STRING_T);
            u16_write_be(v.len() as u16, out);
            write_strings(v, 0, out);
        },
        List::Objects(v) => {
            proof {
                lemma_objs_view_index(v@);
            }
            out.push(OBJECT_T);
            u16_write_be(v.len() as u16, out);
            write_objects(v, 0, out);
        },
    }
    proof {
        assert(out@ =~= old(out)@ + enc_list(l@));
    }
}

/// Appends the object elements of a list from index `i` on.
fn write_objects(v: &Vec<Object>, i: usize, out: &mut Vec<u8>)
    requires
        i <= v@.len(),
        wf_objects(objs_view(v@)),
    ensures
        final(out)@ == old(out)@ + enc_objects(objs_view(v@), i as nat),
    decreases v, 1int, v@.len() - i,
{
    proof {
        lemma_objs_view_index(v@);
    }
    if i < v.len() {
        proof {
            lemma_wf_objects_index(objs_view(v@));
            assert(objs_view(v@)[i as int] == obj_view(v@[i as int]));
            assert(wf_object(obj_view(v@[i as int])));
        }
        write_object(&v[i], out);
        write_objects(v, i + 1, out);
        proof {
            assert(out@ =~= old(out)@ + enc_objects(objs_view(v@), i as nat));
        }
    } else {
        proof {
            assert(out@ =~= old(out)@ + enc_objects(objs_view(v@), i as nat));
        }
    }
}

/// Appends an object: 1-byte field count, then its fields.
pub fn write_object(o: &Object, out: &mut Vec<u8>)
    requires
        wf_object(o@),
    ensures
        final(out)@ == old(out)@ + enc_object(o@),
    decreases o, 2int, 0nat,
{
    proof {
        lemma_fields_view_index(o.fields@);
    }
    out.push(o.fields.len() as u8);
    write_fields(&o.fields, 0, out);
    proof {
        assert(out@ =~= old(out)@ + enc_object(o@));
    }
}

/// Appends the fields of an object or message body from index `i` on.
pub fn write_fields(s: &Vec<(FieldName, FieldValue)>, i: usize, out: &mut Vec<u8>)
    requires
        i <= s@.len(),
        wf_fields(fields_view(s@)),
    ensures
        final(out)@ == old(out)@ + enc_fields(fields_view(s@), i as nat),
    decreases s, 1int, s@.len() - i,
{
    proof {
        lemma_fields_view_index(s@);
    }
    if i < s.len() {
        proof {
            lemma_wf_fields_index(fields_view(s@));
            assert(wf_name(fields_view(s@)[i as int].0) && wf_value(
                fields_view(s@)[i as int].1,
            ));
            assert(fields_view(s@)[i as int] == (s@[i as int].0.bytes@, fv_view(
                s@[i as int].1,
            )));
        }
        let pair = &s[i];
        write_name(&pair.0, out);
        write_value(&pair.1, out);
        write_fields(s, i + 1, out);
        proof {
            assert(out@ =~= old(out)@ + enc_fields(fields_view(s@), i as nat));
        }
    } else {
        proof {
            assert(out@ =~= old(out)@ + enc_fields(fields_view(s@), i as nat));
        }
    }
}

impl Message {
    /// The exact byte encoding of this message.
    pub fn serialize(&self) -> (out: Vec<u8>)
        requires
            wf_message(self@),
        ensures
            out@ == enc_message(self@),
    {
        let mut out: Vec<u8> = Vec::new();
        write_header(&self.header, &mut out);
        write_fields(&self.body, 0, &mut out);
        proof {
            assert(out@ =~= enc_message(self@));
        }
        out
    }
}

} // verus!
