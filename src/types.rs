//! File descriptors: the canonical description of a compiled schema.
use vstd::prelude::*;

verus! {

#[derive(Clone, Copy, Debug, PartialEq, Eq, Structural)]
pub enum Type {
    Double,
    Float,
    Int64,
    Uint64,
    Int32,
    Fixed64,
    Fixed32,
    Bool,
    Str,
    Group,
    Message,
    Bytes,
    Uint32,
    Enum,
    Sfixed32,
    Sfixed64,
    Sint32,
    Sint64,
}

#[derive(Clone, Copy, Debug, PartialEq, Eq, Structural)]
pub enum Label {
    Optional,
    Required,
    Repeated,
}

/// An option kept as written, for later evaluation.
#[derive(Clone, Debug)]
pub struct UninterpretedOption {
    pub name: String,
    pub value: String,
}

/// Options of any descriptor: the one option the checker sets itself, and
/// those it records without evaluating them.
#[derive(Clone, Debug)]
pub struct Options {
    pub map_entry: Option<bool>,
    pub uninterpreted_option: Vec<UninterpretedOption>,
}

#[derive(Clone, Debug)]
pub struct FieldDescriptorProto {
    pub name: Option<String>,
    pub number: Option<i32>,
    pub label: Option<Label>,
    pub ty: Option<Type>,
    pub type_ref: Option<String>,
    pub extendee: Option<String>,
    pub default_value: Option<String>,
    pub oneof_index: Option<i32>,
    pub json_name: Option<String>,
    pub options: Option<Options>,
    pub proto3_optional: Option<bool>,
}

#[derive(Clone, Debug)]
pub struct OneofDescriptorProto {
    pub name: Option<String>,
    pub options: Option<Options>,
}

#[derive(Clone, Copy, Debug, PartialEq, Eq, Structural)]
pub struct ReservedRange {
    pub start: Option<i32>,
    pub end: Option<i32>,
}

#[derive(Clone, Debug)]
pub struct ExtensionRange {
    pub start: Option<i32>,
    pub end: Option<i32>,
    pub options: Option<Options>,
}

#[derive(Clone, Copy, Debug, PartialEq, Eq, Structural)]
pub struct EnumReservedRange {
    pub start: Option<i32>,
    pub end: Option<i32>,
}

#[derive(Clone, Debug)]
pub struct EnumValueDescriptorProto {
    pub name: Option<String>,
    pub number: Option<i32>,
    pub options: Option<Options>,
}

#[derive(Clone, Debug)]
pub struct EnumDescriptorProto {
    pub name: Option<String>,
    pub value: Vec<EnumValueDescriptorProto>,
    pub options: Option<Options>,
    pub reserved_range: Vec<EnumReservedRange>,
    pub reserved_name: Vec<String>,
}

#[derive(Debug)]
pub struct DescriptorProto {
    pub name: Option<String>,
    pub field: Vec<FieldDescriptorProto>,
    pub extension: Vec<FieldDescriptorProto>,
    pub nested_type: Vec<DescriptorProto>,
    pub enum_type: Vec<EnumDescriptorProto>,
    pub extension_range: Vec<ExtensionRange>,
    pub oneof_decl: Vec<OneofDescriptorProto>,
    pub options: Option<Options>,
    pub reserved_range: Vec<ReservedRange>,
    pub reserved_name: Vec<String>,
}

#[derive(Clone, Debug)]
pub struct MethodDescriptorProto {
    pub name: Option<String>,
    pub input_type: Option<String>,
    pub output_type: Option<String>,
    pub options: Option<Options>,
    pub client_streaming: Option<bool>,
    pub server_streaming: Option<bool>,
}

#[derive(Clone, Debug)]
pub struct ServiceDescriptorProto {
    pub name: Option<String>,
    pub method: Vec<MethodDescriptorProto>,
    pub options: Option<Options>,
}

#[derive(Debug)]
pub struct FileDescriptorProto {
    pub name: Option<String>,
    pub package: Option<String>,
    pub dependency: Vec<String>,
    pub public_dependency: Vec<i32>,
    pub weak_dependency: Vec<i32>,
    pub message_type: Vec<DescriptorProto>,
    pub enum_type: Vec<EnumDescriptorProto>,
    pub service: Vec<ServiceDescriptorProto>,
    pub extension: Vec<FieldDescriptorProto>,
    pub options: Option<Options>,
    pub syntax: Option<String>,
}

} // verus!
