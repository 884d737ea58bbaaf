//! The syntax tree that the parser hands to the checker.
use vstd::prelude::*;

verus! {

/// A half-open byte range `[start, end)` into one file's source text.
#[derive(Clone, Copy, Debug, PartialEq, Eq, Structural)]
pub struct Span {
    pub start: usize,
    pub end: usize,
}

#[derive(Clone, Copy, Debug, PartialEq, Eq, Structural)]
pub enum Syntax {
    Proto2,
    Proto3,
}

#[derive(Clone, Debug)]
pub struct Ident {
    pub value: String,
    pub span: Span,
}

/// A reference to a type by name, as written: `name` holds the dotted
/// segments without any leading dot.
#[derive(Clone, Debug)]
pub struct TypeName {
    pub leading_dot: bool,
    pub name: String,
    pub span: Span,
}

/// An integer literal with its sign kept apart from its magnitude.
#[derive(Clone, Copy, Debug, PartialEq, Eq, Structural)]
pub struct Int {
    pub negative: bool,
    pub value: u64,
    pub span: Span,
}

#[derive(Clone, Copy, Debug, PartialEq, Eq, Structural)]
pub enum FieldLabel {
    Optional,
    Required,
    Repeated,
}

#[derive(Clone, Copy, Debug, PartialEq, Eq, Structural)]
pub enum KeyTy {
    Int32,
    Int64,
    Uint32,
    Uint64,
    Sint32,
    Sint64,
    Fixed32,
    Fixed64,
    Sfixed32,
    Sfixed64,
    Bool,
    Str,
}

#[derive(Clone, Debug)]
pub enum Ty {
    Double,
    Float,
    Int32,
    Int64,
    Uint32,
    Uint64,
    Sint32,
    Sint64,
    Fixed32,
    Fixed64,
    Sfixed32,
    Sfixed64,
    Bool,
    Str,
    Bytes,
    Named(TypeName),
}

/// An option as written: its dotted name and the text of its value.
#[derive(Clone, Debug)]
pub struct OptionBody {
    pub name: String,
    pub value: String,
    pub span: Span,
}

#[derive(Clone, Debug)]
pub struct Field {
    pub label: Option<FieldLabel>,
    pub name: Ident,
    pub ty: Ty,
    pub number: Int,
    pub options: Vec<OptionBody>,
    pub span: Span,
}

#[derive(Debug)]
pub struct Group {
    pub label: Option<FieldLabel>,
    pub name: Ident,
    pub number: Int,
    pub body: MessageBody,
    pub options: Vec<OptionBody>,
    pub span: Span,
}

#[derive(Clone, Debug)]
pub struct MapField {
    pub label: Option<FieldLabel>,
    pub key_ty: KeyTy,
    pub key_ty_span: Span,
    pub ty: Ty,
    pub ty_span: Span,
    pub name: Ident,
    pub number: Int,
    pub options: Vec<OptionBody>,
    pub span: Span,
}

#[derive(Debug)]
pub struct Oneof {
    pub name: Ident,
    pub options: Vec<OptionBody>,
    pub fields: Vec<MessageField>,
    pub span: Span,
}

/// What may stand as a field of a message body, an extend or a oneof.
#[derive(Debug)]
pub enum MessageField {
    Field(Field),
    Group(Group),
    MapField(MapField),
    Oneof(Oneof),
}

#[derive(Clone, Debug)]
pub enum ReservedRangeEnd {
    Single,
    Int(Int),
    Max,
}

#[derive(Clone, Debug)]
pub struct ReservedRange {
    pub start: Int,
    pub end: ReservedRangeEnd,
}

#[derive(Clone, Debug)]
pub enum ReservedKind {
    Ranges(Vec<ReservedRange>),
    Names(Vec<Ident>),
}

#[derive(Clone, Debug)]
pub struct Reserved {
    pub kind: ReservedKind,
    pub span: Span,
}

#[derive(Clone, Debug)]
pub struct Extensions {
    pub ranges: Vec<ReservedRange>,
    pub options: Vec<OptionBody>,
    pub span: Span,
}

#[derive(Debug)]
pub struct Extend {
    pub extendee: TypeName,
    pub fields: Vec<MessageField>,
    pub span: Span,
}

#[derive(Debug)]
pub enum MessageItem {
    Field(MessageField),
    Enum(Enum),
    Message(Message),
    Extend(Extend),
}

#[derive(Debug)]
pub struct MessageBody {
    pub items: Vec<MessageItem>,
    pub extensions: Vec<Extensions>,
    pub options: Vec<OptionBody>,
    pub reserved: Vec<Reserved>,
}

#[derive(Debug)]
pub struct Message {
    pub name: Ident,
    pub body: MessageBody,
    pub span: Span,
}

#[derive(Clone, Debug)]
pub struct EnumValue {
    pub name: Ident,
    pub value: Int,
    pub options: Vec<OptionBody>,
    pub span: Span,
}

#[derive(Clone, Debug)]
pub struct Enum {
    pub name: Ident,
    pub values: Vec<EnumValue>,
    pub options: Vec<OptionBody>,
    pub reserved: Vec<Reserved>,
    pub span: Span,
}

#[derive(Clone, Debug)]
pub struct Method {
    pub name: Ident,
    pub input_ty: TypeName,
    pub output_ty: TypeName,
    pub is_client_streaming: bool,
    pub is_server_streaming: bool,
    pub options: Vec<OptionBody>,
    pub span: Span,
}

#[derive(Clone, Debug)]
pub struct Service {
    pub name: Ident,
    pub methods: Vec<Method>,
    pub options: Vec<OptionBody>,
    pub span: Span,
}

#[derive(Clone, Copy, Debug, PartialEq, Eq, Structural)]
pub enum ImportKind {
    Weak,
    Public,
}

#[derive(Clone, Debug)]
pub struct Import {
    pub kind: Option<ImportKind>,
    pub value: String,
    pub span: Span,
}

#[derive(Debug)]
pub enum FileItem {
    Enum(Enum),
    Message(Message),
    Extend(Extend),
    Service(Service),
}

#[derive(Debug)]
pub struct File {
    pub syntax: Syntax,
    pub package: Option<Ident>,
    pub imports: Vec<Import>,
    pub options: Vec<OptionBody>,
    pub items: Vec<FileItem>,
}

} // verus!
