//! The in-memory message tree: header, field names, string values, lists,
//! objects and the tagged field-value union, together with their mathematical
//! views and the well-formedness conditions the wire format can carry.

use vstd::prelude::*;
use crate::utf8::utf8_ok;

verus! {

/// The one protocol version this codec speaks.
pub const VERSION1: u8 = 0x01;

/// Tag byte for an integer value or list element.
pub const INTEGER_T: u8 = 0x01;

/// Tag byte for a string value or list element.
pub const STRING_T: u8 = 0x02;

/// Tag byte for a list value.
pub const LIST_T: u8 = 0x03;

/// Tag byte for an object value or list element.
pub const OBJECT_T: u8 = 0x04;

/// 4-byte message preamble.
#[derive(Clone, Copy, Debug, PartialEq, Eq, Structural)]
pub struct Header {
    pub version: u8,
    pub field_count: u8,
    pub length: u16,
}

/// A field name: UTF-8 text of at most 255 bytes when well-formed.
#[derive(Clone, Debug, PartialEq, Eq, Hash)]
pub struct FieldName {
    pub bytes: Vec<u8>,
}

/// A string value: UTF-8 text of at most 65535 bytes when well-formed.
#[derive(Clone, Debug, PartialEq, Eq)]
pub struct StringValue {
    pub bytes: Vec<u8>,
}

/// A homogeneous list of integers, strings or objects.
#[derive(Debug, PartialEq)]
pub enum List {
    Integers(Vec<i64>),
    Strings(Vec<StringValue>),
    Objects(Vec<Object>),
}

/// A mapping from field name to field value, in insertion order.
#[derive(Debug, PartialEq)]
pub struct Object {
    pub fields: Vec<(FieldName, FieldValue)>,
}

/// Everything a field can hold.
#[derive(Debug, PartialEq)]
pub enum FieldValue {
    Integer(i64),
    String(StringValue),
    List(List),
    Object(Object),
}

/// A complete message: header plus named fields.
#[derive(Debug, PartialEq)]
pub struct Message {
    pub header: Header,
    pub body: Vec<(FieldName, FieldValue)>,
}

/// Every way a decode can fail.
#[derive(Clone, Copy, Debug, PartialEq, Eq, Structural)]
pub enum DecodeError {
    /// Fewer bytes remain than a fixed-width or declared-length field needs.
    TruncatedBuffer,
    /// Length-delimited bytes are not valid UTF-8 text.
    InvalidUtf8,
    /// A field-value or list-element tag byte matches no variant.
    UnknownTypeTag { tag: u8 },
    /// The header's version byte is not the supported one.
    UnsupportedVersion { found: u8 },
    /// The header declares more bytes than the buffer holds.
    BufferTooShort { declared: u16, available: usize },
    /// The body consumed a number of bytes other than the header declared.
    LengthMismatch { declared: u16, actual: usize },
}

/// Mathematical view of a list.
pub enum ListV {
    Integers(Seq<i64>),
    Strings(Seq<Seq<u8>>),
    Objects(Seq<ObjectV>),
}

/// Mathematical view of an object.
pub struct ObjectV {
    pub fields: Seq<(Seq<u8>, FieldValueV)>,
}

/// Mathematical view of a field value.
pub enum FieldValueV {
    Integer(i64),
    String(Seq<u8>),
    List(ListV),
    Object(ObjectV),
}

/// Mathematical view of a message.
pub struct MessageV {
    pub header: Header,
    pub body: Seq<(Seq<u8>, FieldValueV)>,
}

/// View of a sequence of strings, element by element.
pub open spec fn strs_view(s: Seq<StringValue>) -> Seq<Seq<u8>> {
    s.map(|i: int, sv: StringValue| sv.bytes@)
}

/// View of a sequence of objects, element by element.
pub open spec fn objs_view(s: Seq<Object>) -> Seq<ObjectV>
    decreases s,
{
    if s.len() == 0 {
        Seq::empty()
    } else {
        objs_view(s.drop_last()).push(obj_view(s.last()))
    }
}

/// View of a sequence of named fields, element by element.
pub open spec fn fields_view(s: Seq<(FieldName, FieldValue)>) -> Seq<(Seq<u8>, FieldValueV)>
    decreases s,
{
    if s.len() == 0 {
        Seq::empty()
    } else {
        fields_view(s.drop_last()).push((s.last().0.bytes@, fv_view(s.last().1)))
    }
}

/// View of a list.
pub open spec fn list_view(l: List) -> ListV
    decreases l,
{
    match l {
        List::Integers(v) => ListV::Integers(v@),
        List::Strings(v) => ListV::Strings(strs_view(v@)),
        List::Objects(v) => ListV::Objects(objs_view(v@)),
    }
}

/// View of an object.
pub open spec fn obj_view(o: Object) -> ObjectV
    decreases o,
{
    ObjectV { fields: fields_view(o.fields@) }
}

/// View of a field value.
pub open spec fn fv_view(v: FieldValue) -> FieldValueV
    decreases v,
{
    match v {
        FieldValue::Integer(i) => FieldValueV::Integer(i),
        FieldValue::String(s) => FieldValueV::String(s.bytes@),
        FieldValue::List(l) => FieldValueV::List(list_view(l)),
        FieldValue::Object(o) => FieldValueV::Object(obj_view(o)),
    }
}

impl View for FieldName {
    type V = Seq<u8>;

    open spec fn view(&self) -> Seq<u8> {
        self.bytes@
    }
}

impl View for StringValue {
    type V = Seq<u8>;

    open spec fn view(&self) -> Seq<u8> {
        self.bytes@
    }
}

impl View for List {
    type V = ListV;

    open spec fn view(&self) -> ListV {
        list_view(*self)
    }
}

impl View for Object {
    type V = ObjectV;

    open spec fn view(&self) -> ObjectV {
        obj_view(*self)
    }
}

impl View for FieldValue {
    type V = FieldValueV;

    open spec fn view(&self) -> FieldValueV {
        fv_view(*self)
    }
}

impl View for Message {
    type V = MessageV;

    open spec fn view(&self) -> MessageV {
        MessageV { header: self.header, body: fields_view(self.body@) }
    }
}

pub proof fn lemma_objs_view_index(s: Seq<Object>)
    ensures
        objs_view(s).len() == s.len(),
        forall|i: int| 0 <= i < s.len() ==> objs_view(s)[i] == obj_view(s[i]),
    decreases s,
{
    if s.len() > 0 {
        lemma_objs_view_index(s.drop_last());
        assert forall|i: int| 0 <= i < s.len() implies objs_view(s)[i] == obj_view(s[i]) by {
            if i < s.len() - 1 {
                assert(s.drop_last()[i] == s[i]);
            } else {
                assert(s[i] == s.last());
            }
        }
    }
}

pub proof fn lemma_fields_view_index(s: Seq<(FieldName, FieldValue)>)
    ensures
        fields_view(s).len() == s.len(),
        forall|i: int|
            0 <= i < s.len() ==> fields_view(s)[i] == (s[i].0.bytes@, fv_view(s[i].1)),
    decreases s,
{
    if s.len() > 0 {
        lemma_fields_view_index(s.drop_last());
        assert forall|i: int|
            0 <= i < s.len() implies fields_view(s)[i] == (s[i].0.bytes@, fv_view(s[i].1)) by {
            if i < s.len() - 1 {
                assert(s.drop_last()[i] == s[i]);
            } else {
                assert(s[i] == s.last());
            }
        }
    }
}

/// Whether a name can carry its 1-byte length prefix.
pub open spec fn wf_name(n: Seq<u8>) -> bool {
    n.len() <= 255 && utf8_ok(n)
}

/// Whether a string value can carry its 2-byte length prefix.
pub open spec fn wf_string(s: Seq<u8>) -> bool {
    s.len() <= 65535 && utf8_ok(s)
}

/// Whether every string in a list of strings is well-formed.
pub open spec fn wf_strings(s: Seq<Seq<u8>>) -> bool
    decreases s,
{
    if s.len() == 0 {
        true
    } else {
        wf_strings(s.drop_last()) && wf_string(s.last())
    }
}

/// Whether every object in a list of objects is well-formed.
pub open spec fn wf_objects(s: Seq<ObjectV>) -> bool
    decreases s, 1int,
{
    if s.len() == 0 {
        true
    } else {
        wf_objects(s.drop_last()) && wf_object(s.last())
    }
}

/// Whether every field of a sequence of fields is well-formed.
pub open spec fn wf_fields(s: Seq<(Seq<u8>, FieldValueV)>) -> bool
    decreases s, 1int,
{
    if s.len() == 0 {
        true
    } else {
        wf_fields(s.drop_last()) && wf_name(s.last().0) && wf_value(s.last().1)
    }
}

/// Whether no two fields of `s` share a name.
pub open spec fn unique_names(s: Seq<(Seq<u8>, FieldValueV)>) -> bool {
    forall|i: int, j: int| 0 <= i < j < s.len() ==> s[i].0 != s[j].0
}

/// Whether a list respects the wire format's limits.
pub open spec fn wf_list(l: ListV) -> bool
    decreases l, 2int,
{
    match l {
        ListV::Integers(v) => v.len() <= 65535,
        ListV::Strings(v) => v.len() <= 65535 && wf_strings(v),
        ListV::Objects(v) => v.len() <= 65535 && wf_objects(v),
    }
}

/// Whether an object respects the wire format's limits and has unique names.
pub open spec fn wf_object(o: ObjectV) -> bool
    decreases o, 2int,
{
    o.fields.len() <= 255 && wf_fields(o.fields) && unique_names(o.fields)
}

/// Whether a field value respects the wire format's limits.
pub open spec fn wf_value(v: FieldValueV) -> bool
    decreases v, 3int,
{
    match v {
        FieldValueV::Integer(_) => true,
        FieldValueV::String(s) => wf_string(s),
        FieldValueV::List(l) => wf_list(l),
        FieldValueV::Object(o) => wf_object(o),
    }
}

pub proof fn lemma_wf_objects_index(s: Seq<ObjectV>)
    requires
        wf_objects(s),
    ensures
        forall|i: int| 0 <= i < s.len() ==> wf_object(#[trigger] s[i]),
    decreases s,
{
    if s.len() > 0 {
        lemma_wf_objects_index(s.drop_last());
        assert forall|i: int| 0 <= i < s.len() implies wf_object(#[trigger] s[i]) by {
            if i < s.len() - 1 {
                assert(s.drop_last()[i] == s[i]);
            } else {
                assert(s[i] == s.last());
            }
        }
    }
}

pub proof fn lemma_wf_fields_index(s: Seq<(Seq<u8>, FieldValueV)>)
    requires
        wf_fields(s),
    ensures
        forall|i: int| 0 <= i < s.len() ==> wf_name(#[trigger] s[i].0) && wf_value(s[i].1),
    decreases s,
{
    if s.len() > 0 {
        lemma_wf_fields_index(s.drop_last());
        assert forall|i: int|
            0 <= i < s.len() implies wf_name(#[trigger] s[i].0) && wf_value(s[i].1) by {
            if i < s.len() - 1 {
                assert(s.drop_last()[i] == s[i]);
            } else {
                assert(s[i] == s.last());
            }
        }
    }
}

pub proof fn lemma_wf_strings_index(s: Seq<Seq<u8>>)
    requires
        wf_strings(s),
    ensures
        forall|i: int| 0 <= i < s.len() ==> wf_string(#[trigger] s[i]),
    decreases s,
{
    if s.len() > 0 {
        lemma_wf_strings_index(s.drop_last());
        assert forall|i: int| 0 <= i < s.len() implies wf_string(#[trigger] s[i]) by {
            if i < s.len() - 1 {
                assert(s.drop_last()[i] == s[i]);
            } else {
                assert(s[i] == s.last());
            }
        }
    }
}

} // verus!
