//! The abstract syntax tree for the schema language: nested `message` and
//! `oneof` blocks, `enum` blocks, and typed fields with an optional
//! cardinality qualifier.
//!
//! Every node also has a ghost view (`MessageV`, `EnumV`, ...) in which
//! strings become `Seq<char>` and vectors become `Seq` of views; contracts
//! throughout the crate speak of those views.
use vstd::prelude::*;

use vstd::string::StringExecFns;

verus! {

/// Scalar type of a message field. A closed set: `string` or `int32`.
#[derive(Debug, Clone, PartialEq, Eq, Ord, PartialOrd, Hash)]
pub enum Type {
    String,
    Int32,
}

/// Cardinality qualifier of a message field. A field may also carry no
/// qualifier at all (`Option<Frequency>` is `None`), which is distinct from
/// every qualifier.
#[derive(Debug, Clone, PartialEq, Eq, Ord, PartialOrd, Hash)]
pub enum Frequency {
    Optional,
    Repeated,
    Required,
}

/// A typed field of a message or oneof: qualifier, name and declared field
/// number, tagged with the field's scalar type.
#[derive(Debug, Clone, PartialEq, Eq, Ord, PartialOrd, Hash)]
pub enum MessageField {
    Int32(Option<Frequency>, String, u32),
    String(Option<Frequency>, String, u32),
}

/// A member of an `enum` block: a name and its number.
#[derive(Debug, Clone, PartialEq, Eq, Ord, PartialOrd, Hash)]
pub struct EnumField {
    pub name: String,
    pub position: u32,
}

/// An `enum` block: a name and its members, in declaration order.
#[derive(Debug, Clone, PartialEq, Eq, Ord, PartialOrd, Hash)]
pub struct Enum {
    pub name: String,
    pub fields: Vec<EnumField>,
}

/// A `message` block. Fields, enums, nested messages and nested oneofs are
/// each kept in declaration order within their own kind.
#[derive(Debug, PartialEq, Eq, Ord, PartialOrd, Hash, Default)]
pub struct Message {
    pub name: String,
    pub messages: Vec<Message>,
    pub enums: Vec<Enum>,
    pub fields: Vec<MessageField>,
    pub oneofs: Vec<Oneof>,
}

/// A `oneof` block; structurally identical to a message.
#[derive(Debug, PartialEq, Eq, Ord, PartialOrd, Hash, Default)]
pub struct Oneof {
    pub name: String,
    pub messages: Vec<Message>,
    pub enums: Vec<Enum>,
    pub fields: Vec<MessageField>,
    pub oneofs: Vec<Oneof>,
}

/// The scalar type a keyword denotes, if any.
pub open spec fn spec_type_from(s: Seq<char>) -> Option<Type> {
    if s == "string"@ {
        Some(Type::String)
    } else if s == "int32"@ {
        Some(Type::Int32)
    } else {
        None
    }
}

/// The frequency qualifier a keyword denotes, if any.
pub open spec fn spec_frequency_from(s: Seq<char>) -> Option<Frequency> {
    if s == "optional"@ {
        Some(Frequency::Optional)
    } else if s == "repeated"@ {
        Some(Frequency::Repeated)
    } else if s == "required"@ {
        Some(Frequency::Required)
    } else {
        None
    }
}

impl Type {
    /// The keyword that denotes this type in schema text.
    pub open spec fn spec_keyword(self) -> Seq<char> {
        match self {
            Type::String => "string"@,
            Type::Int32 => "int32"@,
        }
    }

    /// The keyword that denotes this type in schema text.
    pub fn keyword(&self) -> (r: &'static str)
        ensures
            r@ == self.spec_keyword(),
    {
        match self {
            Type::String => "string",
            Type::Int32 => "int32",
        }
    }

    /// The type a keyword denotes; nothing for any other string.
    pub fn from_keyword(s: &String) -> (r: Option<Type>)
        ensures
            r == spec_type_from(s@),
    {
        if *s == String::from_str("string") {
            Some(Type::String)
        } else if *s == String::from_str("int32") {
            Some(Type::Int32)
        } else {
            None
        }
    }
}

impl Frequency {
    /// The keyword that denotes this qualifier in schema text.
    pub open spec fn spec_keyword(self) -> Seq<char> {
        match self {
            Frequency::Optional => "optional"@,
            Frequency::Repeated => "repeated"@,
            Frequency::Required => "required"@,
        }
    }

    /// The keyword that denotes this qualifier in schema text.
    pub fn keyword(&self) -> (r: &'static str)
        ensures
            r@ == self.spec_keyword(),
    {
        match self {
            Frequency::Optional => "optional",
            Frequency::Repeated => "repeated",
            Frequency::Required => "required",
        }
    }

    /// The qualifier a keyword denotes; nothing for any other string.
    pub fn from_keyword(s: &String) -> (r: Option<Frequency>)
        ensures
            r == spec_frequency_from(s@),
    {
        if *s == String::from_str("optional") {
            Some(Frequency::Optional)
        } else if *s == String::from_str("repeated") {
            Some(Frequency::Repeated)
        } else if *s == String::from_str("required") {
            Some(Frequency::Required)
        } else {
            None
        }
    }
}

/// Ghost view of a `MessageField`. The two exec variants share one shape, so
/// the view is a record tagged with the scalar type.
pub ghost struct MessageFieldV {
    pub ty: Type,
    pub frequency: Option<Frequency>,
    pub name: Seq<char>,
    pub position: u32,
}

/// Ghost view of an `EnumField`.
pub ghost struct EnumFieldV {
    pub name: Seq<char>,
    pub position: u32,
}

/// Ghost view of an `Enum`.
pub ghost struct EnumV {
    pub name: Seq<char>,
    pub fields: Seq<EnumFieldV>,
}

/// Ghost view of a `Message`.
pub ghost struct MessageV {
    pub name: Seq<char>,
    pub messages: Seq<MessageV>,
    pub enums: Seq<EnumV>,
    pub fields: Seq<MessageFieldV>,
    pub oneofs: Seq<OneofV>,
}

/// Ghost view of a `Oneof`.
pub ghost struct OneofV {
    pub name: Seq<char>,
    pub messages: Seq<MessageV>,
    pub enums: Seq<EnumV>,
    pub fields: Seq<MessageFieldV>,
    pub oneofs: Seq<OneofV>,
}

impl View for MessageField {
    type V = MessageFieldV;

    open spec fn view(&self) -> MessageFieldV {
        match self {
            MessageField::Int32(f, n, p) => MessageFieldV {
                ty: Type::Int32,
                frequency: *f,
                name: n@,
                position: *p,
            },
            MessageField::String(f, n, p) => MessageFieldV {
                ty: Type::String,
                frequency: *f,
                name: n@,
                position: *p,
            },
        }
    }
}

impl View for EnumField {
    type V = EnumFieldV;

    open spec fn view(&self) -> EnumFieldV {
        EnumFieldV { name: self.name@, position: self.position }
    }
}

impl View for Enum {
    type V = EnumV;

    open spec fn view(&self) -> EnumV {
        EnumV { name: self.name@, fields: fields_seq_view(self.fields@) }
    }
}

/// View of a sequence of message fields, element by element.
pub open spec fn msg_fields_seq_view(s: Seq<MessageField>) -> Seq<MessageFieldV>
    decreases s.len(),
{
    if s.len() == 0 {
        Seq::empty()
    } else {
        msg_fields_seq_view(s.subrange(0, s.len() - 1)).push(s[s.len() - 1]@)
    }
}

/// View of a sequence of enum fields, element by element.
pub open spec fn fields_seq_view(s: Seq<EnumField>) -> Seq<EnumFieldV>
    decreases s.len(),
{
    if s.len() == 0 {
        Seq::empty()
    } else {
        fields_seq_view(s.subrange(0, s.len() - 1)).push(s[s.len() - 1]@)
    }
}

/// View of a sequence of enums, element by element.
pub open spec fn enums_seq_view(s: Seq<Enum>) -> Seq<EnumV>
    decreases s.len(),
{
    if s.len() == 0 {
        Seq::empty()
    } else {
        enums_seq_view(s.subrange(0, s.len() - 1)).push(s[s.len() - 1]@)
    }
}

/// View of a message, recursively.
pub open spec fn msg_view(m: Message) -> MessageV
    decreases m,
{
    MessageV {
        name: m.name@,
        messages: msgs_seq_view(m.messages@),
        enums: enums_seq_view(m.enums@),
        fields: msg_fields_seq_view(m.fields@),
        oneofs: oneofs_seq_view(m.oneofs@),
    }
}

/// View of a oneof, recursively.
pub open spec fn oneof_view(o: Oneof) -> OneofV
    decreases o,
{
    OneofV {
        name: o.name@,
        messages: msgs_seq_view(o.messages@),
        enums: enums_seq_view(o.enums@),
        fields: msg_fields_seq_view(o.fields@),
        oneofs: oneofs_seq_view(o.oneofs@),
    }
}

/// View of a sequence of messages, element by element.
pub open spec fn msgs_seq_view(s: Seq<Message>) -> Seq<MessageV>
    decreases s,
{
    if s.len() == 0 {
        Seq::empty()
    } else {
        msgs_seq_view(s.subrange(0, s.len() - 1)).push(msg_view(s[s.len() - 1]))
    }
}

/// View of a sequence of oneofs, element by element.
pub open spec fn oneofs_seq_view(s: Seq<Oneof>) -> Seq<OneofV>
    decreases s,
{
    if s.len() == 0 {
        Seq::empty()
    } else {
        oneofs_seq_view(s.subrange(0, s.len() - 1)).push(oneof_view(s[s.len() - 1]))
    }
}

/// A view sequence has one view per element, in order.
pub proof fn lemma_fields_seq_view_props(s: Seq<EnumField>)
    ensures
        fields_seq_view(s).len() == s.len(),
        forall|i: int| 0 <= i < s.len() ==> fields_seq_view(s)[i] == #[trigger] s[i]@,
    decreases s.len(),
{
    if s.len() > 0 {
        let pre = s.subrange(0, s.len() - 1);
        lemma_fields_seq_view_props(pre);
        assert forall|i: int| 0 <= i < s.len() - 1 implies pre[i] == s[i] by {}
    }
}

/// A view sequence has one view per element, in order.
pub proof fn lemma_msg_fields_seq_view_props(s: Seq<MessageField>)
    ensures
        msg_fields_seq_view(s).len() == s.len(),
        forall|i: int| 0 <= i < s.len() ==> msg_fields_seq_view(s)[i] == #[trigger] s[i]@,
    decreases s.len(),
{
    if s.len() > 0 {
        let pre = s.subrange(0, s.len() - 1);
        lemma_msg_fields_seq_view_props(pre);
        assert forall|i: int| 0 <= i < s.len() - 1 implies pre[i] == s[i] by {}
    }
}

/// A view sequence has one view per element, in order.
pub proof fn lemma_enums_seq_view_props(s: Seq<Enum>)
    ensures
        enums_seq_view(s).len() == s.len(),
        forall|i: int| 0 <= i < s.len() ==> enums_seq_view(s)[i] == #[trigger] s[i]@,
    decreases s.len(),
{
    if s.len() > 0 {
        let pre = s.subrange(0, s.len() - 1);
        lemma_enums_seq_view_props(pre);
        assert forall|i: int| 0 <= i < s.len() - 1 implies pre[i] == s[i] by {}
    }
}

/// A view sequence has one view per element, in order.
pub proof fn lemma_msgs_seq_view_props(s: Seq<Message>)
    ensures
        msgs_seq_view(s).len() == s.len(),
        forall|i: int| 0 <= i < s.len() ==> msgs_seq_view(s)[i] == msg_view(#[trigger] s[i]),
    decreases s.len(),
{
    if s.len() > 0 {
        let pre = s.subrange(0, s.len() - 1);
        lemma_msgs_seq_view_props(pre);
        assert forall|i: int| 0 <= i < s.len() - 1 implies pre[i] == s[i] by {}
    }
}

/// A view sequence has one view per element, in order.
pub proof fn lemma_oneofs_seq_view_props(s: Seq<Oneof>)
    ensures
        oneofs_seq_view(s).len() == s.len(),
        forall|i: int| 0 <= i < s.len() ==> oneofs_seq_view(s)[i] == oneof_view(#[trigger] s[i]),
    decreases s.len(),
{
    if s.len() > 0 {
        let pre = s.subrange(0, s.len() - 1);
        lemma_oneofs_seq_view_props(pre);
        assert forall|i: int| 0 <= i < s.len() - 1 implies pre[i] == s[i] by {}
    }
}

/// Appending one element appends its view.
pub proof fn lemma_fields_seq_view_push(s: Seq<EnumField>, x: EnumField)
    ensures
        fields_seq_view(s.push(x)) == fields_seq_view(s).push(x@),
{
    assert(s.push(x).subrange(0, s.len() as int) =~= s);
    assert(s.push(x)[s.len() as int] == x);
}

/// Appending one element appends its view.
pub proof fn lemma_msg_fields_seq_view_push(s: Seq<MessageField>, x: MessageField)
    ensures
        msg_fields_seq_view(s.push(x)) == msg_fields_seq_view(s).push(x@),
{
    assert(s.push(x).subrange(0, s.len() as int) =~= s);
    assert(s.push(x)[s.len() as int] == x);
}

/// Appending one element appends its view.
pub proof fn lemma_enums_seq_view_push(s: Seq<Enum>, x: Enum)
    ensures
        enums_seq_view(s.push(x)) == enums_seq_view(s).push(x@),
{
    assert(s.push(x).subrange(0, s.len() as int) =~= s);
    assert(s.push(x)[s.len() as int] == x);
}

/// Appending one element appends its view.
pub proof fn lemma_msgs_seq_view_push(s: Seq<Message>, x: Message)
    ensures
        msgs_seq_view(s.push(x)) == msgs_seq_view(s).push(msg_view(x)),
{
    assert(s.push(x).subrange(0, s.len() as int) =~= s);
    assert(s.push(x)[s.len() as int] == x);
}

/// Appending one element appends its view.
pub proof fn lemma_oneofs_seq_view_push(s: Seq<Oneof>, x: Oneof)
    ensures
        oneofs_seq_view(s.push(x)) == oneofs_seq_view(s).push(oneof_view(x)),
{
    assert(s.push(x).subrange(0, s.len() as int) =~= s);
    assert(s.push(x)[s.len() as int] == x);
}

impl View for Message {
    type V = MessageV;

    open spec fn view(&self) -> MessageV {
        msg_view(*self)
    }
}

impl View for Oneof {
    type V = OneofV;

    open spec fn view(&self) -> OneofV {
        oneof_view(*self)
    }
}

} // verus!
