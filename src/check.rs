//! The checker: the second pass, which resolves type references through the
//! name map, validates labels, numbers and defaults per syntax, and emits
//! file descriptors while it collects diagnostics.
use vstd::prelude::*;

use crate::ast::{self, Span, Syntax};
use crate::case::{camel, lower, to_ascii_lowercase, to_camel_case, to_pascal_case};
use crate::names::{
    Entry,
    agrees, covers, declares, distinct_decls, file_decls, imported_public, resolve_spec, DefinitionKind, DuplicateNameError, NameMap,
    ParsedFileMap,
};
use crate::text::{join, join_name};
use crate::types::{
    DescriptorProto, EnumDescriptorProto, EnumReservedRange, EnumValueDescriptorProto,
    ExtensionRange, FieldDescriptorProto, FileDescriptorProto, Label, MethodDescriptorProto,
    OneofDescriptorProto, Options, ReservedRange, ServiceDescriptorProto, Type,
    UninterpretedOption,
};
use crate::MAX_MESSAGE_FIELD_NUMBER;

verus! {

/// A diagnostic of the checker. Each carries the span it is about.
#[derive(Debug)]
pub enum CheckError {
    DuplicateName(DuplicateNameError),
    TypeNameNotFound { name: String, span: Span },
    InvalidMessageFieldTypeName { name: String, span: Span },
    InvalidExtendeeTypeName { name: String, span: Span },
    InvalidMethodTypeName { name: String, kind: &'static str, span: Span },
    InvalidMessageNumber { span: Span },
    InvalidEnumNumber { span: Span },
    Proto2FieldMissingLabel { span: Span },
    Proto3RequiredField { span: Span },
    RequiredExtendField { span: Span },
    OneofFieldWithLabel { span: Span },
    InvalidOneofFieldKind { kind: &'static str, span: Span },
    InvalidExtendFieldKind { kind: &'static str, span: Span },
    MapFieldWithLabel { span: Span },
    InvalidDefault { kind: &'static str, span: Span },
    Proto3GroupField { span: Span },
}

/// A diagnostic as a value, with the names it carries as character
/// sequences; those that carry no name stand as themselves.
pub ghost enum Diag {
    NotFound { name: Seq<char>, span: Span },
    NotAType { name: Seq<char>, span: Span },
    NotAnExtendee { name: Seq<char>, span: Span },
    NotAMethodType { name: Seq<char>, kind: &'static str, span: Span },
    Plain(CheckError),
}

/// A frame of the scope stack.
#[derive(Debug)]
pub enum Definition {
    Package { full_name: String },
    Message { full_name: String },
    Enum,
    Group,
    Service { full_name: String },
    Oneof { index: i32 },
    Extend { extendee: String },
}

/// The state of the checker over one file.
#[derive(Debug)]
pub struct Context {
    pub syntax: Syntax,
    pub errors: Vec<CheckError>,
    pub stack: Vec<Definition>,
    pub names: NameMap,
    /// Whether type references are looked up at all; a first draft of a
    /// file's descriptor is emitted without lookups.
    pub resolve_names: bool,
}

/// The current scope: the full name of the innermost package, message or
/// service frame, or the root.
pub open spec fn scope_of(stack: Seq<Definition>) -> Seq<char>
    decreases stack.len(),
{
    if stack.len() == 0 {
        Seq::empty()
    } else {
        match stack.last() {
            Definition::Package { full_name } => full_name@,
            Definition::Message { full_name } => full_name@,
            Definition::Service { full_name } => full_name@,
            _ => scope_of(stack.drop_last()),
        }
    }
}

pub open spec fn in_oneof_spec(stack: Seq<Definition>) -> bool {
    stack.len() > 0 && stack.last() is Oneof
}

pub open spec fn in_extend_spec(stack: Seq<Definition>) -> bool {
    stack.len() > 0 && stack.last() is Extend
}

pub open spec fn parent_extendee_spec(stack: Seq<Definition>) -> Option<String> {
    if stack.len() > 0 {
        match stack.last() {
            Definition::Extend { extendee } => Some(extendee),
            _ => None,
        }
    } else {
        None
    }
}

pub open spec fn parent_oneof_spec(stack: Seq<Definition>) -> Option<i32> {
    if stack.len() > 0 {
        match stack.last() {
            Definition::Oneof { index } => Some(index),
            _ => None,
        }
    } else {
        None
    }
}

/// Two states that differ at most in the diagnostics collected.
pub open spec fn same_scope(a: Context, b: Context) -> bool {
    a.syntax == b.syntax && a.stack@ == b.stack@ && a.names@ == b.names@ && a.resolve_names
        == b.resolve_names
}

/// `b` has the diagnostics of `a` and perhaps more after them.
pub open spec fn errors_grow(a: Context, b: Context) -> bool {
    a.errors@.len() <= b.errors@.len() && b.errors@.subrange(0, a.errors@.len() as int)
        == a.errors@
}

/// A message field number: positive and at most the largest field number.
pub open spec fn field_number(i: ast::Int) -> Option<i32> {
    if !i.negative && 1 <= i.value && i.value <= MAX_MESSAGE_FIELD_NUMBER as u64 {
        Some(i.value as i32)
    } else {
        None
    }
}

/// An enum value number: any `i32`, negative ones included.
pub open spec fn enum_number(i: ast::Int) -> Option<i32> {
    if i.negative {
        if i.value <= 2147483648 {
            Some((-(i.value as int)) as i32)
        } else {
            None
        }
    } else if i.value <= 2147483647 {
        Some(i.value as i32)
    } else {
        None
    }
}

/// The diagnostic a label draws in the current position, if any.
pub open spec fn label_error(
    syntax: Syntax,
    stack: Seq<Definition>,
    label: Option<ast::FieldLabel>,
    span: Span,
) -> Option<CheckError> {
    label_error_in(syntax, in_oneof_spec(stack), in_extend_spec(stack), label, span)
}

/// The diagnostic a label draws, given whether the field stands in a oneof
/// or in an extend.
pub open spec fn label_error_in(
    syntax: Syntax,
    in_oneof: bool,
    in_extend: bool,
    label: Option<ast::FieldLabel>,
    span: Span,
) -> Option<CheckError> {
    if in_extend && label == Some(ast::FieldLabel::Required) {
        Some(CheckError::RequiredExtendField { span })
    } else if in_oneof && label is Some {
        Some(CheckError::OneofFieldWithLabel { span })
    } else if syntax == Syntax::Proto2 && label is None && !in_oneof {
        Some(CheckError::Proto2FieldMissingLabel { span })
    } else if syntax == Syntax::Proto3 && label == Some(ast::FieldLabel::Required) {
        Some(CheckError::Proto3RequiredField { span })
    } else {
        None
    }
}

pub open spec fn opt_seq(e: Option<CheckError>) -> Seq<CheckError> {
    match e {
        Some(e) => seq![e],
        None => Seq::empty(),
    }
}

pub open spec fn label_of(l: ast::FieldLabel) -> Label {
    match l {
        ast::FieldLabel::Optional => Label::Optional,
        ast::FieldLabel::Required => Label::Required,
        ast::FieldLabel::Repeated => Label::Repeated,
    }
}

pub open spec fn key_type(k: ast::KeyTy) -> Type {
    match k {
        ast::KeyTy::Int32 => Type::Int32,
        ast::KeyTy::Int64 => Type::Int64,
        ast::KeyTy::Uint32 => Type::Uint32,
        ast::KeyTy::Uint64 => Type::Uint64,
        ast::KeyTy::Sint32 => Type::Sint32,
        ast::KeyTy::Sint64 => Type::Sint64,
        ast::KeyTy::Fixed32 => Type::Fixed32,
        ast::KeyTy::Fixed64 => Type::Fixed64,
        ast::KeyTy::Sfixed32 => Type::Sfixed32,
        ast::KeyTy::Sfixed64 => Type::Sfixed64,
        ast::KeyTy::Bool => Type::Bool,
        ast::KeyTy::Str => Type::Str,
    }
}

/// The descriptor type of a scalar type; `None` for a named one.
pub open spec fn scalar_type(t: ast::Ty) -> Option<Type> {
    match t {
        ast::Ty::Double => Some(Type::Double),
        ast::Ty::Float => Some(Type::Float),
        ast::Ty::Int32 => Some(Type::Int32),
        ast::Ty::Int64 => Some(Type::Int64),
        ast::Ty::Uint32 => Some(Type::Uint32),
        ast::Ty::Uint64 => Some(Type::Uint64),
        ast::Ty::Sint32 => Some(Type::Sint32),
        ast::Ty::Sint64 => Some(Type::Sint64),
        ast::Ty::Fixed32 => Some(Type::Fixed32),
        ast::Ty::Fixed64 => Some(Type::Fixed64),
        ast::Ty::Sfixed32 => Some(Type::Sfixed32),
        ast::Ty::Sfixed64 => Some(Type::Sfixed64),
        ast::Ty::Bool => Some(Type::Bool),
        ast::Ty::Str => Some(Type::Str),
        ast::Ty::Bytes => Some(Type::Bytes),
        ast::Ty::Named(_) => None,
    }
}

/// The descriptor type a resolved name gives a message field.
pub open spec fn named_type(k: Option<DefinitionKind>) -> Option<Type> {
    match k {
        Some(DefinitionKind::Message) => Some(Type::Message),
        Some(DefinitionKind::Enum) => Some(Type::Enum),
        Some(DefinitionKind::Group) => Some(Type::Group),
        _ => None,
    }
}

/// A kind that a message field may not name.
pub open spec fn bad_field_kind(k: Option<DefinitionKind>) -> bool {
    k is Some && named_type(k) is None
}

/// A kind that a method input or output, or an extendee, may not name.
pub open spec fn bad_message_kind(k: Option<DefinitionKind>) -> bool {
    match k {
        None => false,
        Some(DefinitionKind::Message) => false,
        Some(DefinitionKind::Group) => false,
        _ => true,
    }
}

/// A type reference as written, with its leading dot if it has one.
pub open spec fn type_name_text(t: ast::TypeName) -> Seq<char> {
    if t.leading_dot {
        seq!['.'] + t.name@
    } else {
        t.name@
    }
}

pub open spec fn is_default_option(o: ast::OptionBody) -> bool {
    o.name@ == "default"@
}

/// The value given by the last `default` option, if any.
pub open spec fn default_of(s: Seq<ast::OptionBody>) -> Option<String>
    decreases s.len(),
{
    if s.len() == 0 {
        None
    } else if is_default_option(s.last()) {
        Some(s.last().value)
    } else {
        default_of(s.drop_last())
    }
}

/// The options other than `default`, in order.
pub open spec fn non_default_options(s: Seq<ast::OptionBody>) -> Seq<ast::OptionBody>
    decreases s.len(),
{
    if s.len() == 0 {
        s
    } else if is_default_option(s.last()) {
        non_default_options(s.drop_last())
    } else {
        non_default_options(s.drop_last()).push(s.last())
    }
}

/// `opts` records the options `src` as written, one for one and in order.
pub open spec fn records(opts: Options, src: Seq<ast::OptionBody>) -> bool {
    &&& opts.map_entry is None
    &&& opts.uninterpreted_option@.len() == src.len()
    &&& forall|i: int|
        0 <= i < src.len() ==> (#[trigger] opts.uninterpreted_option@[i]).name == src[i].name
            && opts.uninterpreted_option@[i].value == src[i].value
}

/// The options of a declaration: none when nothing was written.
pub open spec fn records_option(opts: Option<Options>, src: Seq<ast::OptionBody>) -> bool {
    if src.len() == 0 {
        opts is None
    } else {
        opts matches Some(o) && records(o, src)
    }
}

fn record_options(src: &[ast::OptionBody]) -> (r: Options)
    ensures
        records(r, src@),
{
    let mut list: Vec<UninterpretedOption> = Vec::new();
    let mut i: usize = 0;
    while i < src.len()
        invariant
            i <= src@.len(),
            list@.len() == i,
            forall|j: int|
                0 <= j < i ==> (#[trigger] list@[j]).name == src@[j].name && list@[j].value
                    == src@[j].value,
        decreases src@.len() - i,
    {
        list.push(UninterpretedOption { name: src[i].name.clone(), value: src[i].value.clone() });
        i = i + 1;
    }
    Options { map_entry: None, uninterpreted_option: list }
}

/// Options as written, or none when there are none.
pub fn to_options(src: &Vec<ast::OptionBody>) -> (r: Option<Options>)
    ensures
        records_option(r, src@),
{
    if src.len() == 0 {
        None
    } else {
        Some(record_options(src.as_slice()))
    }
}

/// `list` records the options `src` as written, one for one and in order.
pub open spec fn records_list(list: Seq<UninterpretedOption>, src: Seq<ast::OptionBody>) -> bool {
    &&& list.len() == src.len()
    &&& forall|i: int|
        0 <= i < src.len() ==> (#[trigger] list[i]).name == src[i].name && list[i].value
            == src[i].value
}

/// Splits the options of a field into its default value and the others.
pub fn to_field_options(src: &Vec<ast::OptionBody>) -> (r: (Option<String>, Option<Options>))
    ensures
        r.0 == default_of(src@),
        records_option(r.1, non_default_options(src@)),
{
    let mut default_value: Option<String> = None;
    let mut list: Vec<UninterpretedOption> = Vec::new();
    let mut i: usize = 0;
    let default_name = String::from_str("default");
    assert(src@.take(0) =~= Seq::<ast::OptionBody>::empty());
    while i < src.len()
        invariant
            i <= src@.len(),
            default_name@ == "default"@,
            default_value == default_of(src@.take(i as int)),
            records_list(list@, non_default_options(src@.take(i as int))),
        decreases src@.len() - i,
    {
        assert(src@.take(i + 1).drop_last() =~= src@.take(i as int));
        let o = &src[i];
        if o.name == default_name {
            default_value = Some(o.value.clone());
        } else {
            list.push(UninterpretedOption { name: o.name.clone(), value: o.value.clone() });
        }
        i = i + 1;
    }
    assert(src@.take(i as int) =~= src@);
    let options = if list.len() == 0 {
        None
    } else {
        Some(Options { map_entry: None, uninterpreted_option: list })
    };
    (default_value, options)
}

/// The parts of the checker's state that decide what is emitted: the
/// syntax, the scope stack, the names, and whether lookups are made.
pub type Env = (Syntax, Seq<Definition>, Map<Seq<char>, Entry>, bool);

pub open spec fn env_of(ctx: Context) -> Env {
    (ctx.syntax, ctx.stack@, ctx.names@, ctx.resolve_names)
}

/// What a reference resolves to: nothing when lookups are off.
pub open spec fn lookup_in(env: Env, text: Seq<char>) -> Option<(Seq<char>, DefinitionKind)> {
    if env.3 {
        resolve_spec(env.2, scope_of(env.1), text)
    } else {
        None
    }
}

pub open spec fn resolved_name_in(env: Env, text: Seq<char>) -> Seq<char> {
    match lookup_in(env, text) {
        Some((abs, _)) => abs,
        None => text,
    }
}

pub open spec fn resolved_kind_in(env: Env, text: Seq<char>) -> Option<DefinitionKind> {
    match lookup_in(env, text) {
        Some((_, k)) => Some(k),
        None => None,
    }
}

/// What a reference resolves to in this state: nothing when lookups are off.
pub open spec fn lookup(ctx: Context, text: Seq<char>) -> Option<(Seq<char>, DefinitionKind)> {
    lookup_in(env_of(ctx), text)
}

/// A lookup that was made and found nothing.
pub open spec fn lookup_fails(ctx: Context, text: Seq<char>) -> bool {
    ctx.resolve_names && resolve_spec(ctx.names@, scope_of(ctx.stack@), text) is None
}

/// The name recorded for a reference: the absolute name found, or the
/// reference as written.
pub open spec fn resolved_name(ctx: Context, text: Seq<char>) -> Seq<char> {
    resolved_name_in(env_of(ctx), text)
}

pub open spec fn resolved_kind(ctx: Context, text: Seq<char>) -> Option<DefinitionKind> {
    resolved_kind_in(env_of(ctx), text)
}

/// The diagnostics a lookup adds: one when it fails.
pub open spec fn lookup_error_ok(ctx: Context, text: Seq<char>, span: Span, added: Seq<CheckError>) -> bool {
    if lookup_fails(ctx, text) {
        added.len() == 1 && (added[0] matches CheckError::TypeNameNotFound { name, span: s } && name@
            == text && s == span)
    } else {
        added.len() == 0
    }
}

pub open spec fn reserved_end(r: ast::ReservedRange) -> Option<i32> {
    let end = match r.end {
        ast::ReservedRangeEnd::Single => field_number(r.start),
        ast::ReservedRangeEnd::Int(v) => field_number(v),
        ast::ReservedRangeEnd::Max => Some(MAX_MESSAGE_FIELD_NUMBER),
    };
    match end {
        Some(n) => Some((n + 1) as i32),
        None => None,
    }
}

pub open spec fn number_error(n: Option<i32>, span: Span) -> Seq<CheckError> {
    if n is None {
        seq![CheckError::InvalidMessageNumber { span }]
    } else {
        Seq::empty()
    }
}

pub open spec fn enum_number_error(n: Option<i32>, span: Span) -> Seq<CheckError> {
    if n is None {
        seq![CheckError::InvalidEnumNumber { span }]
    } else {
        Seq::empty()
    }
}

/// The diagnostics of a range of field numbers: one for each bad bound.
pub open spec fn reserved_errors(r: ast::ReservedRange) -> Seq<CheckError> {
    number_error(field_number(r.start), r.start.span) + match r.end {
        ast::ReservedRangeEnd::Int(v) => number_error(field_number(v), v.span),
        _ => Seq::empty(),
    }
}

pub open spec fn enum_reserved_end(r: ast::ReservedRange) -> Option<i32> {
    match r.end {
        ast::ReservedRangeEnd::Single => enum_number(r.start),
        ast::ReservedRangeEnd::Int(v) => enum_number(v),
        ast::ReservedRangeEnd::Max => Some(i32::MAX),
    }
}

pub open spec fn enum_reserved_errors(r: ast::ReservedRange) -> Seq<CheckError> {
    enum_number_error(enum_number(r.start), r.start.span) + match r.end {
        ast::ReservedRangeEnd::Int(v) => enum_number_error(enum_number(v), v.span),
        _ => Seq::empty(),
    }
}

impl Context {
    /// A fresh state for a file of the given syntax.
    pub fn new(syntax: Syntax, names: NameMap, resolve_names: bool) -> (r: Context)
        ensures
            r.syntax == syntax,
            r.errors@.len() == 0,
            r.stack@.len() == 0,
            r.names == names,
            r.resolve_names == resolve_names,
    {
        Context { syntax, errors: Vec::new(), stack: Vec::new(), names, resolve_names }
    }

    pub fn push_error(&mut self, e: CheckError)
        ensures
            final(self).errors@ == old(self).errors@.push(e),
            same_scope(*old(self), *final(self)),
    {
        self.errors.push(e);
    }

    pub fn enter(&mut self, def: Definition)
        ensures
            final(self).stack@ == old(self).stack@.push(def),
            final(self).errors@ == old(self).errors@,
            final(self).syntax == old(self).syntax,
            final(self).names@ == old(self).names@,
            final(self).resolve_names == old(self).resolve_names,
    {
        self.stack.push(def);
    }

    pub fn exit(&mut self)
        requires
            old(self).stack@.len() > 0,
        ensures
            final(self).stack@ == old(self).stack@.drop_last(),
            final(self).errors@ == old(self).errors@,
            final(self).syntax == old(self).syntax,
            final(self).names@ == old(self).names@,
            final(self).resolve_names == old(self).resolve_names,
    {
        self.stack.pop();
    }

    /// The full name of the current scope.
    pub fn scope_name(&self) -> (r: String)
        ensures
            r@ == scope_of(self.stack@),
    {
        let mut i: usize = self.stack.len();
        assert(self.stack@.take(i as int) =~= self.stack@);
        while i > 0
            invariant
                i <= self.stack@.len(),
                scope_of(self.stack@) == scope_of(self.stack@.take(i as int)),
            decreases i,
        {
            assert(self.stack@.take(i as int).last() == self.stack@[i - 1]);
            assert(self.stack@.take(i as int).drop_last() =~= self.stack@.take(i - 1));
            match &self.stack[i - 1] {
                Definition::Package { full_name } => return full_name.clone(),
                Definition::Message { full_name } => return full_name.clone(),
                Definition::Service { full_name } => return full_name.clone(),
                _ => {},
            }
            i = i - 1;
        }
        String::new()
    }

    /// `name` declared in the current scope.
    pub fn full_name(&self, name: &str) -> (r: String)
        ensures
            r@ == join(scope_of(self.stack@), name@),
    {
        let scope = self.scope_name();
        join_name(scope.as_str(), name)
    }

    pub fn in_oneof(&self) -> (r: bool)
        ensures
            r == in_oneof_spec(self.stack@),
    {
        self.stack.len() > 0 && matches!(self.stack[self.stack.len() - 1], Definition::Oneof { .. })
    }

    pub fn in_extend(&self) -> (r: bool)
        ensures
            r == in_extend_spec(self.stack@),
    {
        self.stack.len() > 0 && matches!(self.stack[self.stack.len() - 1], Definition::Extend { .. })
    }

    pub fn parent_extendee(&self) -> (r: Option<String>)
        ensures
            r == parent_extendee_spec(self.stack@),
    {
        if self.stack.len() == 0 {
            return None;
        }
        match &self.stack[self.stack.len() - 1] {
            Definition::Extend { extendee } => Some(extendee.clone()),
            _ => None,
        }
    }

    pub fn parent_oneof(&self) -> (r: Option<i32>)
        ensures
            r == parent_oneof_spec(self.stack@),
    {
        if self.stack.len() == 0 {
            return None;
        }
        match &self.stack[self.stack.len() - 1] {
            Definition::Oneof { index } => Some(*index),
            _ => None,
        }
    }

    /// Reports a label that the current position does not allow.
    pub fn check_label(&mut self, label: Option<ast::FieldLabel>, span: Span)
        ensures
            final(self).errors@ == old(self).errors@ + opt_seq(
                label_error(old(self).syntax, old(self).stack@, label, span),
            ),
            same_scope(*old(self), *final(self)),
    {
        let in_extend = self.in_extend();
        let in_oneof = self.in_oneof();
        let required = matches!(label, Some(ast::FieldLabel::Required));
        if in_extend && required {
            self.errors.push(CheckError::RequiredExtendField { span });
        } else if in_oneof && label.is_some() {
            self.errors.push(CheckError::OneofFieldWithLabel { span });
        } else if self.syntax == Syntax::Proto2 && label.is_none() && !in_oneof {
            self.errors.push(CheckError::Proto2FieldMissingLabel { span });
        } else if self.syntax == Syntax::Proto3 && required {
            self.errors.push(CheckError::Proto3RequiredField { span });
        }
        proof {
            let e = label_error(old(self).syntax, old(self).stack@, label, span);
            if e is None {
                assert(self.errors@ =~= old(self).errors@ + opt_seq(e));
            }
        }
    }

    /// Resolves a name from the current scope, reporting one that is not
    /// found.
    pub fn resolve_relative_type_name(&mut self, name: String, span: Span) -> (r: (
        String,
        Option<DefinitionKind>,
    ))
        ensures
            r.0@ == resolved_name(*old(self), name@),
            r.1 == resolved_kind(*old(self), name@),
            same_scope(*old(self), *final(self)),
            errors_grow(*old(self), *final(self)),
            lookup_error_ok(
                *old(self),
                name@,
                span,
                final(self).errors@.subrange(old(self).errors@.len() as int, final(self).errors@.len() as int),
            ),
    {
        assert(self.errors@.subrange(0, self.errors@.len() as int) =~= self.errors@);
        assert(self.errors@.subrange(self.errors@.len() as int, self.errors@.len() as int) =~= Seq::<CheckError>::empty());
        if !self.resolve_names {
            return (name, None);
        }
        let scope = self.scope_name();
        let found = match self.names.resolve(scope.as_str(), name.as_str()) {
            Some((abs, k)) => Some((abs, k.clone())),
            None => None,
        };
        match found {
            Some((abs, k)) => {
                assert(self.errors@.subrange(old(self).errors@.len() as int, self.errors@.len() as int) =~= Seq::<CheckError>::empty());
                (abs, Some(k))
            },
            None => {
                self.errors.push(CheckError::TypeNameNotFound { name: name.clone(), span });
                assert(self.errors@.subrange(0, old(self).errors@.len() as int) =~= old(self).errors@);
                (name, None)
            },
        }
    }

    /// Resolves a type reference as written.
    pub fn resolve_type_name(&mut self, reference: &ast::TypeName) -> (r: (
        String,
        Option<DefinitionKind>,
    ))
        ensures
            r.0@ == resolved_name(*old(self), type_name_text(*reference)),
            r.1 == resolved_kind(*old(self), type_name_text(*reference)),
            same_scope(*old(self), *final(self)),
            errors_grow(*old(self), *final(self)),
            lookup_error_ok(
                *old(self),
                type_name_text(*reference),
                reference.span,
                final(self).errors@.subrange(old(self).errors@.len() as int, final(self).errors@.len() as int),
            ),
    {
        let text = reference.to_text();
        self.resolve_relative_type_name(text, reference.span)
    }
}

impl ast::TypeName {
    /// The reference as written, with its leading dot if it has one.
    pub fn to_text(&self) -> (r: String)
        ensures
            r@ == type_name_text(*self),
    {
        if self.leading_dot {
            crate::text::absolute_name(self.name.as_str())
        } else {
            self.name.clone()
        }
    }
}

impl ast::Int {
    /// This literal as a message field number; reports one out of range.
    pub fn to_field_number(&self, ctx: &mut Context) -> (r: Option<i32>)
        ensures
            r == field_number(*self),
            final(ctx).errors@ == old(ctx).errors@ + number_error(r, self.span),
            same_scope(*old(ctx), *final(ctx)),
    {
        if !self.negative && 1 <= self.value && self.value <= MAX_MESSAGE_FIELD_NUMBER as u64 {
            assert(ctx.errors@ =~= old(ctx).errors@ + Seq::<CheckError>::empty());
            Some(self.value as i32)
        } else {
            ctx.errors.push(CheckError::InvalidMessageNumber { span: self.span });
            None
        }
    }

    /// This literal as an enum value number; reports one out of range.
    pub fn to_enum_number(&self, ctx: &mut Context) -> (r: Option<i32>)
        ensures
            r == enum_number(*self),
            final(ctx).errors@ == old(ctx).errors@ + enum_number_error(r, self.span),
            same_scope(*old(ctx), *final(ctx)),
    {
        let n: Option<i32> = if self.negative {
            if self.value < 2147483648 {
                Some(-(self.value as i32))
            } else if self.value == 2147483648 {
                Some(i32::MIN)
            } else {
                None
            }
        } else if self.value <= 2147483647 {
            Some(self.value as i32)
        } else {
            None
        };
        if n.is_none() {
            ctx.errors.push(CheckError::InvalidEnumNumber { span: self.span });
        } else {
            assert(ctx.errors@ =~= old(ctx).errors@ + Seq::<CheckError>::empty());
        }
        n
    }
}

impl ast::FieldLabel {
    pub fn to_field_label(self) -> (r: Label)
        ensures
            r == label_of(self),
    {
        match self {
            ast::FieldLabel::Optional => Label::Optional,
            ast::FieldLabel::Required => Label::Required,
            ast::FieldLabel::Repeated => Label::Repeated,
        }
    }
}

impl ast::KeyTy {
    pub fn to_type(&self) -> (r: Type)
        ensures
            r == key_type(*self),
    {
        match self {
            ast::KeyTy::Int32 => Type::Int32,
            ast::KeyTy::Int64 => Type::Int64,
            ast::KeyTy::Uint32 => Type::Uint32,
            ast::KeyTy::Uint64 => Type::Uint64,
            ast::KeyTy::Sint32 => Type::Sint32,
            ast::KeyTy::Sint64 => Type::Sint64,
            ast::KeyTy::Fixed32 => Type::Fixed32,
            ast::KeyTy::Fixed64 => Type::Fixed64,
            ast::KeyTy::Sfixed32 => Type::Sfixed32,
            ast::KeyTy::Sfixed64 => Type::Sfixed64,
            ast::KeyTy::Bool => Type::Bool,
            ast::KeyTy::Str => Type::Str,
        }
    }
}

impl ast::ReservedRange {
    /// A reserved range of field numbers, end exclusive; `max` reaches past
    /// the largest field number.
    pub fn to_reserved_range(&self, ctx: &mut Context) -> (r: ReservedRange)
        ensures
            r == (ReservedRange { start: field_number(self.start), end: reserved_end(*self) }),
            final(ctx).errors@ == old(ctx).errors@ + reserved_errors(*self),
            same_scope(*old(ctx), *final(ctx)),
    {
        let (start, end) = self.to_field_range(ctx);
        ReservedRange { start, end }
    }

    /// An extension range of field numbers, end exclusive, without options.
    pub fn to_extension_range(&self, ctx: &mut Context) -> (r: ExtensionRange)
        ensures
            r.start == field_number(self.start),
            r.end == reserved_end(*self),
            r.options is None,
            final(ctx).errors@ == old(ctx).errors@ + reserved_errors(*self),
            same_scope(*old(ctx), *final(ctx)),
    {
        let (start, end) = self.to_field_range(ctx);
        ExtensionRange { start, end, options: None }
    }

    fn to_field_range(&self, ctx: &mut Context) -> (r: (Option<i32>, Option<i32>))
        ensures
            r == (field_number(self.start), reserved_end(*self)),
            final(ctx).errors@ == old(ctx).errors@ + reserved_errors(*self),
            same_scope(*old(ctx), *final(ctx)),
    {
        let start = self.start.to_field_number(ctx);
        let ghost mid = ctx.errors@;
        let end = match &self.end {
            ast::ReservedRangeEnd::Single => start,
            ast::ReservedRangeEnd::Int(value) => value.to_field_number(ctx),
            ast::ReservedRangeEnd::Max => Some(MAX_MESSAGE_FIELD_NUMBER),
        };
        let end = match end {
            Some(n) => Some(n + 1),
            None => None,
        };
        proof {
            match self.end {
                ast::ReservedRangeEnd::Int(v) => {},
                _ => {
                    assert(ctx.errors@ =~= mid + Seq::<CheckError>::empty());
                },
            }
            assert(ctx.errors@ =~= old(ctx).errors@ + reserved_errors(*self));
        }
        (start, end)
    }

    /// A reserved range of enum numbers, both ends inclusive.
    pub fn to_enum_reserved_range(&self, ctx: &mut Context) -> (r: EnumReservedRange)
        ensures
            r == (EnumReservedRange { start: enum_number(self.start), end: enum_reserved_end(*self) }),
            final(ctx).errors@ == old(ctx).errors@ + enum_reserved_errors(*self),
            same_scope(*old(ctx), *final(ctx)),
    {
        let start = self.start.to_enum_number(ctx);
        let ghost mid = ctx.errors@;
        let end = match &self.end {
            ast::ReservedRangeEnd::Single => start,
            ast::ReservedRangeEnd::Int(value) => value.to_enum_number(ctx),
            ast::ReservedRangeEnd::Max => Some(i32::MAX),
        };
        proof {
            match self.end {
                ast::ReservedRangeEnd::Int(v) => {},
                _ => {
                    assert(ctx.errors@ =~= mid + Seq::<CheckError>::empty());
                },
            }
            assert(ctx.errors@ =~= old(ctx).errors@ + enum_reserved_errors(*self));
        }
        EnumReservedRange { start, end }
    }
}

/// The diagnostics added between two states.
pub open spec fn added(a: Context, b: Context) -> Seq<CheckError> {
    b.errors@.subrange(a.errors@.len() as int, b.errors@.len() as int)
}

proof fn lemma_added(a: Seq<CheckError>, b: Seq<CheckError>, x: Seq<CheckError>)
    requires
        b == a + x,
    ensures
        b.subrange(a.len() as int, b.len() as int) == x,
        b.len() >= a.len(),
        b.subrange(0, a.len() as int) == a,
{
    assert(b.subrange(a.len() as int, b.len() as int) =~= x);
    assert(b.subrange(0, a.len() as int) =~= a);
}

proof fn lemma_grow_same(a: Context, b: Context)
    requires
        a.errors@ == b.errors@,
    ensures
        errors_grow(a, b),
        added(a, b) == Seq::<CheckError>::empty(),
{
    lemma_added(a.errors@, b.errors@, Seq::empty());
    assert(b.errors@ =~= a.errors@ + Seq::<CheckError>::empty());
}

proof fn lemma_grow_trans(a: Context, b: Context, c: Context)
    requires
        errors_grow(a, b),
        errors_grow(b, c),
    ensures
        errors_grow(a, c),
        added(a, c) == added(a, b) + added(b, c),
{
    assert(c.errors@.subrange(0, a.errors@.len() as int) =~= b.errors@.subrange(
        0,
        a.errors@.len() as int,
    ));
    assert(added(a, c) =~= added(a, b) + added(b, c));
}

pub open spec fn ty_type_in(env: Env, ty: ast::Ty) -> Option<Type> {
    match ty {
        ast::Ty::Named(t) => named_type(resolved_kind_in(env, type_name_text(t))),
        _ => scalar_type(ty),
    }
}

pub open spec fn ty_type(ctx: Context, ty: ast::Ty) -> Option<Type> {
    ty_type_in(env_of(ctx), ty)
}

pub open spec fn ty_ref_in(env: Env, ty: ast::Ty) -> Option<Seq<char>> {
    match ty {
        ast::Ty::Named(t) => Some(resolved_name_in(env, type_name_text(t))),
        _ => None,
    }
}

pub open spec fn ty_ref(ctx: Context, ty: ast::Ty) -> Option<Seq<char>> {
    ty_ref_in(env_of(ctx), ty)
}

pub open spec fn string_view(s: Option<String>) -> Option<Seq<char>> {
    match s {
        Some(s) => Some(s@),
        None => None,
    }
}

pub open spec fn name_of(s: Option<String>) -> Seq<char> {
    match s {
        Some(s) => s@,
        None => Seq::empty(),
    }
}

/// The diagnostics a type reference adds: a failed lookup, or a name that
/// a field cannot have as its type.
pub open spec fn type_errors_ok(ctx: Context, ty: ast::Ty, added: Seq<CheckError>) -> bool {
    match ty {
        ast::Ty::Named(t) => {
            let text = type_name_text(t);
            if bad_field_kind(resolved_kind(ctx, text)) {
                added.len() == 1 && (added[0] matches CheckError::InvalidMessageFieldTypeName {
                    name,
                    span,
                } && name@ == text && span == t.span)
            } else {
                lookup_error_ok(ctx, text, t.span, added)
            }
        },
        _ => added.len() == 0,
    }
}

pub open spec fn label_or_optional(l: Option<ast::FieldLabel>) -> ast::FieldLabel {
    match l {
        Some(l) => l,
        None => ast::FieldLabel::Optional,
    }
}

/// A field that gets presence of its own: declared `optional` in proto3,
/// outside any oneof.
pub open spec fn is_proto3_optional(env: Env, label: Option<ast::FieldLabel>) -> bool {
    env.0 == Syntax::Proto3 && label == Some(ast::FieldLabel::Optional) && !in_oneof_spec(env.1)
}

pub open spec fn default_error(has_default: bool, bad: bool, kind: &'static str, span: Span) -> Seq<CheckError> {
    if has_default && bad {
        seq![CheckError::InvalidDefault { kind, span }]
    } else {
        Seq::empty()
    }
}

pub open spec fn entry_name(name: Seq<char>) -> Seq<char> {
    camel(name, true) + "Entry"@
}

/// `m` is the entry message generated for `map`: a `key` and a `value`
/// field, numbered 1 and 2, and the `map_entry` option.
pub open spec fn is_map_entry_in(m: DescriptorProto, map: ast::MapField, env: Env) -> bool {
    &&& string_view(m.name) == Some(entry_name(map.name.value@))
    &&& m.field@.len() == 2
    &&& string_view(m.field@[0].name) == Some("key"@)
    &&& m.field@[0].number == Some(1i32)
    &&& m.field@[0].label == Some(Label::Optional)
    &&& m.field@[0].ty == Some(key_type(map.key_ty))
    &&& m.field@[0].type_ref is None
    &&& string_view(m.field@[0].json_name) == Some("key"@)
    &&& forall|i: int|
        0 <= i < 2 ==> (#[trigger] m.field@[i]).extendee is None && m.field@[i].default_value is None
            && m.field@[i].oneof_index is None && m.field@[i].options is None
            && m.field@[i].proto3_optional is None
    &&& string_view(m.field@[1].name) == Some("value"@)
    &&& m.field@[1].number == Some(2i32)
    &&& m.field@[1].label == Some(Label::Optional)
    &&& m.field@[1].ty == ty_type_in(env, map.ty)
    &&& string_view(m.field@[1].type_ref) == ty_ref_in(env, map.ty)
    &&& string_view(m.field@[1].json_name) == Some("value"@)
    &&& m.options matches Some(o) && o.map_entry == Some(true) && o.uninterpreted_option@.len() == 0
    &&& m.nested_type@.len() == 0 && m.enum_type@.len() == 0 && m.oneof_decl@.len() == 0
    &&& m.extension@.len() == 0 && m.extension_range@.len() == 0
    &&& m.reserved_range@.len() == 0 && m.reserved_name@.len() == 0
}

pub open spec fn is_map_entry(m: DescriptorProto, map: ast::MapField, ctx: Context) -> bool {
    is_map_entry_in(m, map, env_of(ctx))
}

/// `r` is the descriptor of the plain field `f` emitted in `env`.
pub open spec fn field_emitted(r: FieldDescriptorProto, f: ast::Field, env: Env) -> bool {
    &&& r.name == Some(f.name.value)
    &&& r.number == field_number(f.number)
    &&& r.label == Some(label_of(label_or_optional(f.label)))
    &&& r.ty == ty_type_in(env, f.ty)
    &&& string_view(r.type_ref) == ty_ref_in(env, f.ty)
    &&& r.extendee == parent_extendee_spec(env.1)
    &&& r.oneof_index == parent_oneof_spec(env.1)
    &&& string_view(r.json_name) == Some(camel(f.name.value@, false))
    &&& r.default_value == default_of(f.options@)
    &&& records_option(r.options, non_default_options(f.options@))
    &&& r.proto3_optional == (if is_proto3_optional(env, f.label) {
        Some(true)
    } else {
        None
    })
}

/// `r` is the descriptor of the map field `m` emitted in `env`: a repeated
/// field of its entry message.
pub open spec fn map_field_emitted(r: FieldDescriptorProto, m: ast::MapField, env: Env) -> bool {
    &&& r.name == Some(m.name.value)
    &&& r.number == field_number(m.number)
    &&& r.label == Some(Label::Repeated)
    &&& r.ty == Some(Type::Message)
    &&& string_view(r.type_ref) == Some(resolved_name_in(env, entry_name(m.name.value@)))
    &&& r.extendee == parent_extendee_spec(env.1)
    &&& r.oneof_index == parent_oneof_spec(env.1)
    &&& string_view(r.json_name) == Some(camel(m.name.value@, false))
    &&& r.default_value is None
    &&& records_option(r.options, non_default_options(m.options@))
    &&& r.proto3_optional is None
}

pub open spec fn group_field_name(g: ast::Group) -> Seq<char> {
    g.name.value@.map_values(|c: char| lower(c))
}

/// `r` is the descriptor of the group field `g` emitted in `env`: a field of
/// type group named after the group in lower case.
pub open spec fn group_field_emitted(r: FieldDescriptorProto, g: ast::Group, env: Env) -> bool {
    &&& string_view(r.name) == Some(group_field_name(g))
    &&& r.number == field_number(g.number)
    &&& r.label == Some(label_of(label_or_optional(g.label)))
    &&& r.ty == Some(Type::Group)
    &&& string_view(r.type_ref) == Some(resolved_name_in(env, g.name.value@))
    &&& r.extendee == parent_extendee_spec(env.1)
    &&& r.oneof_index == parent_oneof_spec(env.1)
    &&& string_view(r.json_name) == Some(camel(group_field_name(g), false))
    &&& r.default_value is None
    &&& records_option(r.options, non_default_options(g.options@))
    &&& r.proto3_optional is None
}

/// `r` is the field that the member `f` emits in `env`; a oneof emits none.
pub open spec fn member_emitted(r: FieldDescriptorProto, f: ast::MessageField, env: Env) -> bool {
    match f {
        ast::MessageField::Field(x) => field_emitted(r, x, env),
        ast::MessageField::Group(g) => group_field_emitted(r, g, env),
        ast::MessageField::MapField(m) => map_field_emitted(r, m, env),
        ast::MessageField::Oneof(_) => false,
    }
}

proof fn lemma_views_add(a: Seq<CheckError>, b: Seq<CheckError>)
    ensures
        views(a + b) == views(a) + views(b),
{
    assert(views(a + b) =~= views(a) + views(b));
}

proof fn lemma_views_grow(a: Context, b: Context, c: Context)
    requires
        errors_grow(a, b),
        errors_grow(b, c),
    ensures
        errors_grow(a, c),
        views(added(a, c)) == views(added(a, b)) + views(added(b, c)),
{
    lemma_grow_trans(a, b, c);
    lemma_views_add(added(a, b), added(b, c));
}

proof fn lemma_plain(x: Seq<CheckError>)
    requires
        forall|i: int| 0 <= i < x.len() ==> err_view(#[trigger] x[i]) == Diag::Plain(x[i]),
    ensures
        views(x) == plain(x),
{
    assert(views(x) =~= plain(x));
}

proof fn lemma_lookup_view(ctx: Context, text: Seq<char>, span: Span, c: Seq<CheckError>)
    requires
        lookup_error_ok(ctx, text, span, c),
    ensures
        views(c) == lookup_diags(denv(env_of(ctx)), text, span),
{
    if lookup_fails(ctx, text) {
        assert(views(c) =~= lookup_diags(denv(env_of(ctx)), text, span));
    } else {
        assert(views(c) =~= Seq::<Diag>::empty());
    }
}

proof fn lemma_type_view(ctx: Context, ty: ast::Ty, b: Seq<CheckError>)
    requires
        type_errors_ok(ctx, ty, b),
    ensures
        views(b) == type_diags(denv(env_of(ctx)), ty),
        d_ty_type(denv(env_of(ctx)), ty) == ty_type(ctx, ty),
{
    match ty {
        ast::Ty::Named(t) => {
            if bad_field_kind(resolved_kind(ctx, type_name_text(t))) {
                assert(views(b) =~= type_diags(denv(env_of(ctx)), ty));
            } else {
                lemma_lookup_view(ctx, type_name_text(t), t.span, b);
            }
        },
        _ => {
            assert(views(b) =~= Seq::<Diag>::empty());
        },
    }
}

impl ast::Ty {
    /// The descriptor type and type name of a field of this type.
    pub fn to_type(&self, ctx: &mut Context) -> (r: (Option<Type>, Option<String>))
        ensures
            r.0 == ty_type(*old(ctx), *self),
            string_view(r.1) == ty_ref(*old(ctx), *self),
            same_scope(*old(ctx), *final(ctx)),
            errors_grow(*old(ctx), *final(ctx)),
            type_errors_ok(*old(ctx), *self, added(*old(ctx), *final(ctx))),
    {
        proof {
            lemma_added(ctx.errors@, ctx.errors@, Seq::empty());
        }
        match self {
            ast::Ty::Double => (Some(Type::Double), None),
            ast::Ty::Float => (Some(Type::Float), None),
            ast::Ty::Int32 => (Some(Type::Int32), None),
            ast::Ty::Int64 => (Some(Type::Int64), None),
            ast::Ty::Uint32 => (Some(Type::Uint32), None),
            ast::Ty::Uint64 => (Some(Type::Uint64), None),
            ast::Ty::Sint32 => (Some(Type::Sint32), None),
            ast::Ty::Sint64 => (Some(Type::Sint64), None),
            ast::Ty::Fixed32 => (Some(Type::Fixed32), None),
            ast::Ty::Fixed64 => (Some(Type::Fixed64), None),
            ast::Ty::Sfixed32 => (Some(Type::Sfixed32), None),
            ast::Ty::Sfixed64 => (Some(Type::Sfixed64), None),
            ast::Ty::Bool => (Some(Type::Bool), None),
            ast::Ty::Str => (Some(Type::Str), None),
            ast::Ty::Bytes => (Some(Type::Bytes), None),
            ast::Ty::Named(reference) => {
                let (name, kind) = ctx.resolve_type_name(reference);
                match kind {
                    None => (None, Some(name)),
                    Some(DefinitionKind::Message) => (Some(Type::Message), Some(name)),
                    Some(DefinitionKind::Enum) => (Some(Type::Enum), Some(name)),
                    Some(DefinitionKind::Group) => (Some(Type::Group), Some(name)),
                    Some(_) => {
                        let ghost mid = *ctx;
                        ctx.errors.push(
                            CheckError::InvalidMessageFieldTypeName {
                                name: reference.to_text(),
                                span: reference.span,
                            },
                        );
                        proof {
                            assert(ctx.errors@ =~= mid.errors@ + seq![ctx.errors@.last()]);
                            lemma_added(mid.errors@, ctx.errors@, seq![ctx.errors@.last()]);
                            lemma_grow_trans(*old(ctx), mid, *ctx);
                        }
                        (None, Some(name))
                    },
                }
            },
        }
    }
}

impl ast::Field {
    /// The descriptor of a plain field in the current position.
    pub fn to_field_descriptor(&self, ctx: &mut Context) -> (r: FieldDescriptorProto)
        ensures
            same_scope(*old(ctx), *final(ctx)),
            errors_grow(*old(ctx), *final(ctx)),
            field_emitted(r, *self, env_of(*old(ctx))),
            views(added(*old(ctx), *final(ctx))) == field_diags(denv(env_of(*old(ctx))), *self),
            exists|b: Seq<CheckError>|
                type_errors_ok(*old(ctx), self.ty, b) && #[trigger] added(*old(ctx), *final(ctx))
                    == number_error(field_number(self.number), self.number.span) + b + opt_seq(
                    label_error(old(ctx).syntax, old(ctx).stack@, self.label, self.span),
                ) + default_error(
                    default_of(self.options@) is Some,
                    ty_type(*old(ctx), self.ty) == Some(Type::Message),
                    "message",
                    self.span,
                ),
    {
        let ghost c0 = *ctx;
        let name = Some(self.name.value.clone());
        let number = self.number.to_field_number(ctx);
        let ghost c1 = *ctx;
        let label = match self.label {
            Some(l) => Some(l.to_field_label()),
            None => Some(Label::Optional),
        };
        let (ty, type_ref) = self.ty.to_type(ctx);
        let ghost c2 = *ctx;
        let (default_value, options) = to_field_options(&self.options);
        ctx.check_label(self.label, self.span);
        let ghost c3 = *ctx;
        if default_value.is_some() && ty == Some(Type::Message) {
            ctx.errors.push(CheckError::InvalidDefault { kind: "message", span: self.span });
        }
        let json_name = Some(to_camel_case(self.name.value.as_str()));
        let proto3_optional = if ctx.syntax == Syntax::Proto3 && self.label == Some(ast::FieldLabel::Optional)
            && !ctx.in_oneof() {
            Some(true)
        } else {
            None
        };
        proof {
            let b = added(c1, c2);
            lemma_added(c0.errors@, c1.errors@, number_error(field_number(self.number), self.number.span));
            lemma_added(c2.errors@, c3.errors@, opt_seq(label_error(c0.syntax, c0.stack@, self.label, self.span)));
            let d = default_error(default_of(self.options@) is Some, ty_type(c0, self.ty) == Some(Type::Message), "message", self.span);
            assert(ctx.errors@ =~= c3.errors@ + d);
            lemma_added(c3.errors@, ctx.errors@, d);
            lemma_grow_trans(c0, c1, c2);
            lemma_grow_trans(c0, c2, c3);
            lemma_grow_trans(c0, c3, *ctx);
            assert(type_errors_ok(c0, self.ty, b));
            let n = number_error(field_number(self.number), self.number.span);
            let l = opt_seq(label_error(c0.syntax, c0.stack@, self.label, self.span));
            lemma_type_view(c0, self.ty, b);
            lemma_plain(n);
            lemma_plain(l);
            lemma_plain(d);
            assert(added(c0, *ctx) == n + b + l + d);
            lemma_views_add(n, b);
            lemma_views_add(n + b, l);
            lemma_views_add(n + b + l, d);
        }
        FieldDescriptorProto {
            name,
            number,
            label,
            ty,
            type_ref,
            extendee: ctx.parent_extendee(),
            default_value,
            oneof_index: ctx.parent_oneof(),
            json_name,
            options,
            proto3_optional,
        }
    }
}

fn plain_field(name: &str, number: i32, ty: Option<Type>, type_ref: Option<String>) -> (r:
    FieldDescriptorProto)
    ensures
        string_view(r.name) == Some(name@),
        r.number == Some(number),
        r.label == Some(Label::Optional),
        r.ty == ty,
        r.type_ref == type_ref,
        string_view(r.json_name) == Some(name@),
        r.extendee is None && r.default_value is None && r.oneof_index is None && r.options is None
            && r.proto3_optional is None,
{
    FieldDescriptorProto {
        name: Some(String::from_str(name)),
        number: Some(number),
        label: Some(Label::Optional),
        ty,
        type_ref,
        extendee: None,
        default_value: None,
        oneof_index: None,
        json_name: Some(String::from_str(name)),
        options: None,
        proto3_optional: None,
    }
}

/// Once the first pass has declared a map field's entry message in the
/// current scope, the field's type name is that message's absolute name,
/// `.scope.FEntry`.
pub proof fn lemma_map_field_type_name(ctx: Context, map: ast::MapField)
    requires
        ctx.resolve_names,
        ctx.names@.contains_key(join(scope_of(ctx.stack@), entry_name(map.name.value@))),
        entry_name(map.name.value@)[0] != '.',
    ensures
        resolved_name(ctx, entry_name(map.name.value@)) == seq!['.'] + join(
            scope_of(ctx.stack@),
            entry_name(map.name.value@),
        ),
{
    reveal_strlit("Entry");
    crate::names::lemma_resolve_declared(ctx.names@, scope_of(ctx.stack@), entry_name(map.name.value@));
}

impl ast::MapField {
    /// The entry message of this map field.
    pub fn generate_message_descriptor(&self, ctx: &mut Context) -> (r: DescriptorProto)
        ensures
            is_map_entry(r, *self, *old(ctx)),
            same_scope(*old(ctx), *final(ctx)),
            errors_grow(*old(ctx), *final(ctx)),
            type_errors_ok(*old(ctx), self.ty, added(*old(ctx), *final(ctx))),
    {
        let mut name = to_pascal_case(self.name.value.as_str());
        name.append("Entry");
        let (ty, type_ref) = self.ty.to_type(ctx);
        let key_field = plain_field("key", 1, Some(self.key_ty.to_type()), None);
        let value_field = plain_field("value", 2, ty, type_ref);
        let mut field = Vec::new();
        field.push(key_field);
        field.push(value_field);
        DescriptorProto {
            name: Some(name),
            field,
            extension: Vec::new(),
            nested_type: Vec::new(),
            enum_type: Vec::new(),
            extension_range: Vec::new(),
            oneof_decl: Vec::new(),
            options: Some(Options { map_entry: Some(true), uninterpreted_option: Vec::new() }),
            reserved_range: Vec::new(),
            reserved_name: Vec::new(),
        }
    }

    /// The descriptor of a map field: a repeated field of its entry
    /// message, which is appended to `messages`.
    pub fn to_field_descriptor(&self, ctx: &mut Context, messages: &mut Vec<DescriptorProto>) -> (r:
        FieldDescriptorProto)
        ensures
            same_scope(*old(ctx), *final(ctx)),
            errors_grow(*old(ctx), *final(ctx)),
            final(messages)@.len() == old(messages)@.len() + 1,
            final(messages)@.drop_last() == old(messages)@,
            is_map_entry(final(messages)@.last(), *self, *old(ctx)),
            map_field_emitted(r, *self, env_of(*old(ctx))),
            views(added(*old(ctx), *final(ctx))) == map_diags(denv(env_of(*old(ctx))), *self),
            exists|b: Seq<CheckError>, c: Seq<CheckError>|
                type_errors_ok(*old(ctx), self.ty, b) && lookup_error_ok(
                    *old(ctx),
                    entry_name(self.name.value@),
                    self.name.span,
                    c,
                ) && #[trigger] added(*old(ctx), *final(ctx)) == number_error(
                    field_number(self.number),
                    self.number.span,
                ) + b + c + (if self.label is Some {
                    seq![CheckError::MapFieldWithLabel { span: self.span }]
                } else {
                    Seq::empty()
                }) + default_error(default_of(self.options@) is Some, true, "map", self.span),
    {
        proof {
            reveal_strlit("Entry");
        }
        let ghost c0 = *ctx;
        let name = Some(self.name.value.clone());
        let number = self.number.to_field_number(ctx);
        let ghost c1 = *ctx;
        let generated_message = self.generate_message_descriptor(ctx);
        let ghost c2 = *ctx;
        let entry = match &generated_message.name {
            Some(n) => n.clone(),
            None => String::new(),
        };
        let (type_ref, _) = ctx.resolve_relative_type_name(entry, self.name.span);
        let ghost c3 = *ctx;
        messages.push(generated_message);
        let (default_value, options) = to_field_options(&self.options);
        if self.label.is_some() {
            ctx.errors.push(CheckError::MapFieldWithLabel { span: self.span });
        }
        let ghost c4 = *ctx;
        if default_value.is_some() {
            ctx.errors.push(CheckError::InvalidDefault { kind: "map", span: self.span });
        }
        let json_name = Some(to_camel_case(self.name.value.as_str()));
        proof {
            assert(messages@.drop_last() =~= old(messages)@);
            let l = if self.label is Some {
                seq![CheckError::MapFieldWithLabel { span: self.span }]
            } else {
                Seq::empty()
            };
            let d = default_error(default_of(self.options@) is Some, true, "map", self.span);
            assert(c4.errors@ =~= c3.errors@ + l);
            assert(ctx.errors@ =~= c4.errors@ + d);
            lemma_added(c0.errors@, c1.errors@, number_error(field_number(self.number), self.number.span));
            lemma_added(c3.errors@, c4.errors@, l);
            lemma_added(c4.errors@, ctx.errors@, d);
            lemma_grow_trans(c0, c1, c2);
            lemma_grow_trans(c0, c2, c3);
            lemma_grow_trans(c0, c3, c4);
            lemma_grow_trans(c0, c4, *ctx);
            assert(type_errors_ok(c0, self.ty, added(c1, c2)));
            assert(lookup_error_ok(c0, entry_name(self.name.value@), self.name.span, added(c2, c3)));
            let n = number_error(field_number(self.number), self.number.span);
            lemma_type_view(c0, self.ty, added(c1, c2));
            lemma_lookup_view(c0, entry_name(self.name.value@), self.name.span, added(c2, c3));
            lemma_plain(n);
            lemma_plain(l + d);
            assert(added(c0, *ctx) == n + added(c1, c2) + added(c2, c3) + (l + d));
            lemma_views_add(n, added(c1, c2));
            lemma_views_add(n + added(c1, c2), added(c2, c3));
            lemma_views_add(n + added(c1, c2) + added(c2, c3), l + d);
        }
        FieldDescriptorProto {
            name,
            number,
            label: Some(Label::Repeated),
            ty: Some(Type::Message),
            type_ref: Some(type_ref),
            extendee: ctx.parent_extendee(),
            default_value: None,
            oneof_index: ctx.parent_oneof(),
            json_name,
            options,
            proto3_optional: None,
        }
    }
}

/// A container index as an `i32`, saturating at `i32::MAX`.
pub fn index_to_i32(i: usize) -> (r: i32)
    ensures
        i <= i32::MAX ==> r == i as i32,
        i > i32::MAX ==> r == i32::MAX,
{
    if i <= 2147483647 {
        i as i32
    } else {
        i32::MAX
    }
}

pub open spec fn synthetic_oneof_name(f: FieldDescriptorProto) -> Seq<char> {
    seq!['_'] + name_of(f.name)
}

/// `after` is `before` given the synthetic oneof at `j`.
pub open spec fn with_oneof(before: FieldDescriptorProto, after: FieldDescriptorProto, j: int) -> bool {
    after == (FieldDescriptorProto { oneof_index: Some(j as i32), ..before })
}

pub open spec fn is_synthetic(f: FieldDescriptorProto) -> bool {
    f.proto3_optional == Some(true)
}

/// How many of the first `n` fields are proto3 optional.
pub open spec fn synthetic_count(fields: Seq<FieldDescriptorProto>, n: int) -> int
    decreases n,
{
    if n <= 0 {
        0
    } else if is_synthetic(fields[n - 1]) {
        synthetic_count(fields, n - 1) + 1
    } else {
        synthetic_count(fields, n - 1)
    }
}

proof fn lemma_synthetic_count_mono(fields: Seq<FieldDescriptorProto>, a: int, b: int)
    requires
        0 <= a <= b,
    ensures
        synthetic_count(fields, a) <= synthetic_count(fields, b),
        synthetic_count(fields, b) <= synthetic_count(fields, a) + (b - a),
    decreases b - a,
{
    if a < b {
        lemma_synthetic_count_mono(fields, a, b - 1);
    }
}

/// The proto3 optional fields of `before`, in order, each point at a oneof of
/// their own named `_` and the field's name; those oneofs follow one another
/// from `first` on and are all the oneofs from there. The other fields are as
/// they were.
pub open spec fn synthetic_oneofs_ok(
    before: Seq<FieldDescriptorProto>,
    fields: Seq<FieldDescriptorProto>,
    oneofs: Seq<OneofDescriptorProto>,
    first: int,
) -> bool {
    &&& fields.len() == before.len()
    &&& oneofs.len() == first + synthetic_count(before, before.len() as int)
    &&& forall|i: int|
        0 <= i < fields.len() ==> synthetic_ok(before, fields, oneofs, first, i)
}

pub open spec fn synthetic_ok(
    before: Seq<FieldDescriptorProto>,
    fields: Seq<FieldDescriptorProto>,
    oneofs: Seq<OneofDescriptorProto>,
    first: int,
    i: int,
) -> bool {
    if is_synthetic(before[i]) {
        let j = first + synthetic_count(before, i);
        with_oneof(before[i], fields[i], j) && string_view(oneofs[j].name) == Some(
            synthetic_oneof_name(before[i]),
        ) && oneofs[j].options is None
    } else {
        fields[i] == before[i]
    }
}

/// Gives each proto3 optional field a oneof of its own, named `_` and the
/// field's name, after all the oneofs declared so far.
pub fn add_synthetic_oneofs(fields: &mut Vec<FieldDescriptorProto>, oneofs: &mut Vec<OneofDescriptorProto>)
    requires
        old(fields)@.len() + old(oneofs)@.len() <= i32::MAX,
    ensures
        final(oneofs)@.subrange(0, old(oneofs)@.len() as int) == old(oneofs)@,
        synthetic_oneofs_ok(old(fields)@, final(fields)@, final(oneofs)@, old(oneofs)@.len() as int),
{
    let ghost before = fields@;
    let ghost first = oneofs@.len() as int;
    let mut i: usize = 0;
    while i < fields.len()
        invariant
            i <= fields@.len(),
            fields@.len() == before.len(),
            oneofs@.len() == first + synthetic_count(before, i as int),
            before.len() + first <= i32::MAX,
            oneofs@.subrange(0, first) == old(oneofs)@,
            first == old(oneofs)@.len(),
            before == old(fields)@,
            forall|k: int| i <= k < fields@.len() ==> fields@[k] == before[k],
            forall|k: int| 0 <= k < i ==> #[trigger] synthetic_ok(before, fields@, oneofs@, first, k),
        decreases fields@.len() - i,
    {
        proof {
            lemma_synthetic_count_mono(before, i as int, i as int + 1);
            lemma_synthetic_count_mono(before, 0, i as int);
        }
        if fields[i].proto3_optional == Some(true) {
            let j = oneofs.len();
            let mut name = String::from_str("_");
            proof {
                reveal_strlit("_");
            }
            match &fields[i].name {
                Some(n) => name.append(n.as_str()),
                None => {},
            }
            let ghost old_oneofs = oneofs@;
            let ghost old_fields = fields@;
            assert(name@ =~= synthetic_oneof_name(before[i as int]));
            oneofs.push(OneofDescriptorProto { name: Some(name), options: None });
            fields[i].oneof_index = Some(j as i32);
            proof {
                assert(fields@ == old_fields.update(i as int, FieldDescriptorProto { oneof_index: Some(j as i32), ..old_fields[i as int] }));
                assert forall|k: int| 0 <= k < i + 1 implies #[trigger] synthetic_ok(before, fields@, oneofs@, first, k) by {
                    if k < i {
                        assert(synthetic_ok(before, old_fields, old_oneofs, first, k));
                        if is_synthetic(before[k]) {
                            lemma_synthetic_count_mono(before, k + 1, i as int);
                            lemma_synthetic_count_mono(before, 0, k);
                            assert(oneofs@[first + synthetic_count(before, k)] == old_oneofs[first + synthetic_count(before, k)]);
                        }
                    } else {
                        assert(oneofs@[j as int].name == Some(name));
                        assert(with_oneof(before[k], fields@[k], j as int));
                    }
                }
                assert(oneofs@.subrange(0, first) =~= old_oneofs.subrange(0, first));
            }
        } else {
            proof {
                assert forall|k: int| 0 <= k < i + 1 implies #[trigger] synthetic_ok(before, fields@, oneofs@, first, k) by {
                    if k < i {
                        assert(synthetic_ok(before, fields@, oneofs@, first, k));
                    }
                }
            }
        }
        i = i + 1;
    }
}

pub open spec fn reserved_range_of(r: ast::ReservedRange) -> ReservedRange {
    ReservedRange { start: field_number(r.start), end: reserved_end(r) }
}

pub open spec fn enum_reserved_range_of(r: ast::ReservedRange) -> EnumReservedRange {
    EnumReservedRange { start: enum_number(r.start), end: enum_reserved_end(r) }
}

/// The reserved field ranges of a message, in order of declaration.
pub open spec fn reserved_ranges_of(rs: Seq<ast::Reserved>) -> Seq<ReservedRange>
    decreases rs.len(),
{
    if rs.len() == 0 {
        Seq::empty()
    } else {
        reserved_ranges_of(rs.drop_last()) + match rs.last().kind {
            ast::ReservedKind::Ranges(v) => v@.map_values(|r: ast::ReservedRange| reserved_range_of(r)),
            ast::ReservedKind::Names(_) => Seq::empty(),
        }
    }
}

/// The reserved number ranges of an enum, in order of declaration.
pub open spec fn enum_reserved_ranges_of(rs: Seq<ast::Reserved>) -> Seq<EnumReservedRange>
    decreases rs.len(),
{
    if rs.len() == 0 {
        Seq::empty()
    } else {
        enum_reserved_ranges_of(rs.drop_last()) + match rs.last().kind {
            ast::ReservedKind::Ranges(v) => v@.map_values(|r: ast::ReservedRange| enum_reserved_range_of(r)),
            ast::ReservedKind::Names(_) => Seq::empty(),
        }
    }
}

/// The reserved names, in order of declaration.
pub open spec fn reserved_names_of(rs: Seq<ast::Reserved>) -> Seq<String>
    decreases rs.len(),
{
    if rs.len() == 0 {
        Seq::empty()
    } else {
        reserved_names_of(rs.drop_last()) + match rs.last().kind {
            ast::ReservedKind::Ranges(_) => Seq::empty(),
            ast::ReservedKind::Names(v) => v@.map_values(|n: ast::Ident| n.value),
        }
    }
}

fn collect_reserved_names(rs: &Vec<ast::Reserved>) -> (r: Vec<String>)
    ensures
        r@ == reserved_names_of(rs@),
{
    let mut out: Vec<String> = Vec::new();
    let mut i: usize = 0;
    while i < rs.len()
        invariant
            i <= rs@.len(),
            out@ == reserved_names_of(rs@.take(i as int)),
        decreases rs@.len() - i,
    {
        assert(rs@.take(i + 1).drop_last() =~= rs@.take(i as int));
        let ghost base = out@;
        match &rs[i].kind {
            ast::ReservedKind::Names(names) => {
                let mut j: usize = 0;
                while j < names.len()
                    invariant
                        j <= names@.len(),
                        out@ == base + names@.take(j as int).map_values(|n: ast::Ident| n.value),
                    decreases names@.len() - j,
                {
                    out.push(names[j].value.clone());
                    assert(names@.take(j + 1).map_values(|n: ast::Ident| n.value) =~= names@.take(
                        j as int,
                    ).map_values(|n: ast::Ident| n.value).push(names@[j as int].value));
                    j = j + 1;
                }
                assert(names@.take(j as int) =~= names@);
            },
            ast::ReservedKind::Ranges(_) => {
                assert(out@ =~= base + Seq::<String>::empty());
            },
        }
        i = i + 1;
    }
    assert(rs@.take(i as int) =~= rs@);
    out
}

fn collect_reserved_ranges(rs: &Vec<ast::Reserved>, ctx: &mut Context) -> (r: Vec<ReservedRange>)
    ensures
        r@ == reserved_ranges_of(rs@),
        same_scope(*old(ctx), *final(ctx)),
        errors_grow(*old(ctx), *final(ctx)),
        final(ctx).errors@ == old(ctx).errors@ + reserved_diags(rs@),
{
    let mut out: Vec<ReservedRange> = Vec::new();
    let mut i: usize = 0;
    proof {
        assert(rs@.take(0) =~= Seq::<ast::Reserved>::empty());
        assert(ctx.errors@ =~= old(ctx).errors@ + reserved_diags(rs@.take(0)));
        lemma_added(ctx.errors@, ctx.errors@, Seq::empty());
    }
    while i < rs.len()
        invariant
            i <= rs@.len(),
            out@ == reserved_ranges_of(rs@.take(i as int)),
            same_scope(*old(ctx), *ctx),
            errors_grow(*old(ctx), *ctx),
            ctx.errors@ == old(ctx).errors@ + reserved_diags(rs@.take(i as int)),
        decreases rs@.len() - i,
    {
        assert(rs@.take(i + 1).drop_last() =~= rs@.take(i as int));
        let ghost base = out@;
        let ghost e_base = ctx.errors@;
        match &rs[i].kind {
            ast::ReservedKind::Ranges(ranges) => {
                let mut j: usize = 0;
                assert(ranges@.take(0) =~= Seq::<ast::ReservedRange>::empty());
                assert(ctx.errors@ =~= e_base + ranges_errors(ranges@.take(0)));
                while j < ranges.len()
                    invariant
                        j <= ranges@.len(),
                        out@ == base + ranges@.take(j as int).map_values(|r: ast::ReservedRange| reserved_range_of(r)),
                        same_scope(*old(ctx), *ctx),
                        errors_grow(*old(ctx), *ctx),
                        ctx.errors@ == e_base + ranges_errors(ranges@.take(j as int)),
                    decreases ranges@.len() - j,
                {
                    let ghost c0 = *ctx;
                    out.push(ranges[j].to_reserved_range(ctx));
                    proof {
                        lemma_added(c0.errors@, ctx.errors@, reserved_errors(ranges@[j as int]));
                        lemma_grow_trans(*old(ctx), c0, *ctx);
                    }
                    assert(ranges@.take(j + 1).map_values(|r: ast::ReservedRange| reserved_range_of(r)) =~= ranges@.take(
                        j as int,
                    ).map_values(|r: ast::ReservedRange| reserved_range_of(r)).push(reserved_range_of(ranges@[j as int])));
                    proof {
                        assert(ranges@.take(j + 1).drop_last() =~= ranges@.take(j as int));
                        assert(ctx.errors@ =~= e_base + ranges_errors(ranges@.take(j + 1)));
                    }
                    j = j + 1;
                }
                assert(ranges@.take(j as int) =~= ranges@);
                assert(ctx.errors@ =~= old(ctx).errors@ + reserved_diags(rs@.take(i + 1)));
            },
            ast::ReservedKind::Names(_) => {
                assert(ctx.errors@ =~= old(ctx).errors@ + reserved_diags(rs@.take(i + 1)));
                assert(out@ =~= base + Seq::<ReservedRange>::empty());
            },
        }
        i = i + 1;
    }
    assert(rs@.take(i as int) =~= rs@);
    out
}

fn collect_enum_reserved_ranges(rs: &Vec<ast::Reserved>, ctx: &mut Context) -> (r: Vec<EnumReservedRange>)
    ensures
        r@ == enum_reserved_ranges_of(rs@),
        same_scope(*old(ctx), *final(ctx)),
        errors_grow(*old(ctx), *final(ctx)),
        final(ctx).errors@ == old(ctx).errors@ + enum_reserved_diags(rs@),
{
    let mut out: Vec<EnumReservedRange> = Vec::new();
    let mut i: usize = 0;
    proof {
        assert(rs@.take(0) =~= Seq::<ast::Reserved>::empty());
        assert(ctx.errors@ =~= old(ctx).errors@ + enum_reserved_diags(rs@.take(0)));
        lemma_added(ctx.errors@, ctx.errors@, Seq::empty());
    }
    while i < rs.len()
        invariant
            i <= rs@.len(),
            out@ == enum_reserved_ranges_of(rs@.take(i as int)),
            same_scope(*old(ctx), *ctx),
            errors_grow(*old(ctx), *ctx),
            ctx.errors@ == old(ctx).errors@ + enum_reserved_diags(rs@.take(i as int)),
        decreases rs@.len() - i,
    {
        assert(rs@.take(i + 1).drop_last() =~= rs@.take(i as int));
        let ghost base = out@;
        let ghost e_base = ctx.errors@;
        match &rs[i].kind {
            ast::ReservedKind::Ranges(ranges) => {
                let mut j: usize = 0;
                assert(ranges@.take(0) =~= Seq::<ast::ReservedRange>::empty());
                assert(ctx.errors@ =~= e_base + enum_ranges_errors(ranges@.take(0)));
                while j < ranges.len()
                    invariant
                        j <= ranges@.len(),
                        out@ == base + ranges@.take(j as int).map_values(|r: ast::ReservedRange| enum_reserved_range_of(r)),
                        same_scope(*old(ctx), *ctx),
                        errors_grow(*old(ctx), *ctx),
                        ctx.errors@ == e_base + enum_ranges_errors(ranges@.take(j as int)),
                    decreases ranges@.len() - j,
                {
                    let ghost c0 = *ctx;
                    out.push(ranges[j].to_enum_reserved_range(ctx));
                    proof {
                        lemma_added(c0.errors@, ctx.errors@, enum_reserved_errors(ranges@[j as int]));
                        lemma_grow_trans(*old(ctx), c0, *ctx);
                    }
                    assert(ranges@.take(j + 1).map_values(|r: ast::ReservedRange| enum_reserved_range_of(r)) =~= ranges@.take(
                        j as int,
                    ).map_values(|r: ast::ReservedRange| enum_reserved_range_of(r)).push(enum_reserved_range_of(ranges@[j as int])));
                    proof {
                        assert(ranges@.take(j + 1).drop_last() =~= ranges@.take(j as int));
                        assert(ctx.errors@ =~= e_base + enum_ranges_errors(ranges@.take(j + 1)));
                    }
                    j = j + 1;
                }
                assert(ranges@.take(j as int) =~= ranges@);
                assert(ctx.errors@ =~= old(ctx).errors@ + enum_reserved_diags(rs@.take(i + 1)));
            },
            ast::ReservedKind::Names(_) => {
                assert(ctx.errors@ =~= old(ctx).errors@ + enum_reserved_diags(rs@.take(i + 1)));
                assert(out@ =~= base + Seq::<EnumReservedRange>::empty());
            },
        }
        i = i + 1;
    }
    assert(rs@.take(i as int) =~= rs@);
    out
}

pub open spec fn kind_name_of(f: ast::MessageField) -> &'static str {
    match f {
        ast::MessageField::Field(_) => "normal",
        ast::MessageField::Group(_) => "group",
        ast::MessageField::MapField(_) => "map",
        ast::MessageField::Oneof(_) => "oneof",
    }
}

pub open spec fn span_of(f: ast::MessageField) -> Span {
    match f {
        ast::MessageField::Field(f) => f.span,
        ast::MessageField::Group(f) => f.span,
        ast::MessageField::MapField(f) => f.span,
        ast::MessageField::Oneof(f) => f.span,
    }
}

/// A map or a oneof, which may stand neither in a oneof nor in an extend.
pub open spec fn is_compound(f: ast::MessageField) -> bool {
    f is MapField || f is Oneof
}

pub open spec fn is_prefix<T>(a: Seq<T>, b: Seq<T>) -> bool {
    a.len() <= b.len() && b.subrange(0, a.len() as int) == a
}

proof fn lemma_prefix_trans<T>(a: Seq<T>, b: Seq<T>, c: Seq<T>)
    requires
        is_prefix(a, b),
        is_prefix(b, c),
    ensures
        is_prefix(a, c),
{
    assert(c.subrange(0, a.len() as int) =~= b.subrange(0, a.len() as int));
}

proof fn lemma_prefix_refl<T>(a: Seq<T>)
    ensures
        is_prefix(a, a),
{
    assert(a.subrange(0, a.len() as int) =~= a);
}

/// How many oneofs a message body declares.
pub open spec fn oneof_item_count(items: Seq<ast::MessageItem>) -> int
    decreases items.len(),
{
    if items.len() == 0 {
        0
    } else {
        oneof_item_count(items.drop_last()) + if items.last() matches ast::MessageItem::Field(
            ast::MessageField::Oneof(_),
        ) {
            1int
        } else {
            0int
        }
    }
}

/// The diagnostics a plain field draws for its number and its label.
pub open spec fn field_checks(x: ast::Field, syntax: Syntax, stack: Seq<Definition>) -> Seq<CheckError> {
    number_error(field_number(x.number), x.number.span) + opt_seq(label_error(syntax, stack, x.label, x.span))
}

/// Every diagnostic of `want` is among `have`.
pub open spec fn reported(want: Seq<CheckError>, have: Seq<CheckError>) -> bool {
    forall|k: int| 0 <= k < want.len() ==> have.contains(#[trigger] want[k])
}

proof fn lemma_reported_grow(want: Seq<CheckError>, have: Seq<CheckError>, more: Seq<CheckError>)
    requires
        reported(want, have),
    ensures
        reported(want, have + more),
{
    assert forall|k: int| 0 <= k < want.len() implies (have + more).contains(#[trigger] want[k]) by {
        let t = choose|t: int| 0 <= t < have.len() && have[t] == want[k];
        assert((have + more)[t] == have[t]);
    }
}

/// A map or a oneof where none may stand: in a oneof or in an extend.
pub open spec fn is_rejected(f: ast::MessageField, stack: Seq<Definition>) -> bool {
    is_compound(f) && (in_oneof_spec(stack) || in_extend_spec(stack))
}

/// The diagnostic a rejected member draws.
pub open spec fn rejection_error(f: ast::MessageField, stack: Seq<Definition>) -> CheckError {
    if in_oneof_spec(stack) {
        CheckError::InvalidOneofFieldKind { kind: kind_name_of(f), span: span_of(f) }
    } else {
        CheckError::InvalidExtendFieldKind { kind: kind_name_of(f), span: span_of(f) }
    }
}

/// The members of a oneof or an extend that emit a field: all but maps and
/// oneofs, in order.
pub open spec fn simple_members(s: Seq<ast::MessageField>) -> Seq<ast::MessageField>
    decreases s.len(),
{
    if s.len() == 0 {
        s
    } else if is_compound(s.last()) {
        simple_members(s.drop_last())
    } else {
        simple_members(s.drop_last()).push(s.last())
    }
}

/// The groups among `s`, in order.
pub open spec fn member_groups(s: Seq<ast::MessageField>) -> Seq<ast::Group>
    decreases s.len(),
{
    if s.len() == 0 {
        Seq::empty()
    } else {
        member_groups(s.drop_last()) + match s.last() {
            ast::MessageField::Group(g) => seq![g],
            _ => Seq::empty(),
        }
    }
}

/// `ms` are the messages of the groups `gs`, one for one and in order, each
/// named after its group and built from its body in `env`.
pub open spec fn messages_named(ms: Seq<DescriptorProto>, gs: Seq<ast::Group>, env: Env) -> bool {
    ms.len() == gs.len() && forall|i: int|
        0 <= i < ms.len() ==> (#[trigger] ms[i]).name == Some(gs[i].name.value) && body_emitted(
            ms[i],
            gs[i].body,
            (env.0, env.1.push(Definition::Group), env.2, env.3),
        )
}

/// `new` holds, one for one and in order, the fields that `members` emit
/// in `env`.
pub open spec fn members_emitted(new: Seq<FieldDescriptorProto>, members: Seq<ast::MessageField>, env: Env) -> bool {
    new.len() == members.len() && forall|i: int| 0 <= i < new.len() ==> member_emitted(#[trigger] new[i], members[i], env)
}

/// Emits the members of a oneof or an extend: one field for each member
/// that may stand there, in order, and a diagnostic for each that may not.
fn emit_members(
    members: &Vec<ast::MessageField>,
    ctx: &mut Context,
    messages: &mut Vec<DescriptorProto>,
    fields: &mut Vec<FieldDescriptorProto>,
)
    requires
        in_oneof_spec(old(ctx).stack@) || in_extend_spec(old(ctx).stack@),
    ensures
        same_scope(*old(ctx), *final(ctx)),
        errors_grow(*old(ctx), *final(ctx)),
        is_prefix(old(messages)@, final(messages)@),
        messages_named(
            final(messages)@.subrange(old(messages)@.len() as int, final(messages)@.len() as int),
            member_groups(members@),
            env_of(*old(ctx)),
        ),
        final(fields)@.len() >= old(fields)@.len(),
        final(fields)@.subrange(0, old(fields)@.len() as int) == old(fields)@,
        members_emitted(
            final(fields)@.subrange(old(fields)@.len() as int, final(fields)@.len() as int),
            simple_members(members@),
            env_of(*old(ctx)),
        ),
        forall|j: int|
            0 <= j < members@.len() && is_compound(#[trigger] members@[j]) ==> added(*old(ctx), *final(ctx)).contains(
                rejection_error(members@[j], old(ctx).stack@),
            ),
        views(added(*old(ctx), *final(ctx))) == members_diags(denv(env_of(*old(ctx))), members@, members@.len() as int),
    decreases members,
{
    let ghost c0 = *ctx;
    let ghost f0 = fields@;
    let mut i: usize = 0;
    proof {
        lemma_prefix_refl(messages@);
        lemma_added(ctx.errors@, ctx.errors@, Seq::empty());
        assert(members@.take(0) =~= Seq::<ast::MessageField>::empty());
        assert(fields@.subrange(0, f0.len() as int) =~= f0);
        assert(fields@.subrange(f0.len() as int, fields@.len() as int) =~= Seq::<FieldDescriptorProto>::empty());
    }
    while i < members.len()
        invariant
            i <= members@.len(),
            same_scope(c0, *ctx),
            errors_grow(c0, *ctx),
            c0 == *old(ctx),
            in_oneof_spec(c0.stack@) || in_extend_spec(c0.stack@),
            is_prefix(old(messages)@, messages@),
            messages_named(
                messages@.subrange(old(messages)@.len() as int, messages@.len() as int),
                member_groups(members@.take(i as int)),
                env_of(c0),
            ),
            fields@.len() >= f0.len(),
            f0 == old(fields)@,
            fields@.subrange(0, f0.len() as int) == f0,
            members_emitted(
                fields@.subrange(f0.len() as int, fields@.len() as int),
                simple_members(members@.take(i as int)),
                env_of(c0),
            ),
            forall|j: int|
                0 <= j < i && is_compound(#[trigger] members@[j]) ==> added(c0, *ctx).contains(
                    rejection_error(members@[j], c0.stack@),
                ),
            views(added(c0, *ctx)) == members_diags(denv(env_of(c0)), members@, i as int),
        decreases members@.len() - i,
    {
        let ghost c1 = *ctx;
        let ghost f1 = fields@;
        let ghost m1 = messages@;
        let mut scratch: Vec<OneofDescriptorProto> = Vec::new();
        members[i].to_field_descriptors(ctx, messages, fields, &mut scratch);
        proof {
            let m = members@[i as int];
            lemma_views_grow(c0, c1, *ctx);
            assert(env_of(c1) == env_of(c0));
            assert(members@.take(i + 1).drop_last() =~= members@.take(i as int));
            assert(members@.take(i + 1).last() == m);
            lemma_grow_trans(c0, c1, *ctx);
            lemma_prefix_trans(old(messages)@, m1, messages@);
            let new0 = f1.subrange(f0.len() as int, f1.len() as int);
            let new1 = fields@.subrange(f0.len() as int, fields@.len() as int);
            let mlen = old(messages)@.len() as int;
            if m is Group {
                assert(messages@.subrange(mlen, messages@.len() as int) =~= m1.subrange(mlen, m1.len() as int).push(messages@.last()));
            } else {
                assert(messages@ == m1);
            }
            if is_compound(m) {
                assert(fields@ == f1);
                assert(ctx.errors@ == c1.errors@.push(rejection_error(m, c0.stack@)));
                assert(added(c0, *ctx) =~= added(c0, c1).push(rejection_error(m, c0.stack@)));
                assert(added(c0, *ctx)[added(c0, *ctx).len() - 1] == rejection_error(m, c0.stack@));
                assert forall|j: int|
                    0 <= j < i + 1 && is_compound(#[trigger] members@[j]) implies added(c0, *ctx).contains(
                        rejection_error(members@[j], c0.stack@),
                    ) by {
                    if j < i {
                        let k = choose|k: int| 0 <= k < added(c0, c1).len() && added(c0, c1)[k] == rejection_error(members@[j], c0.stack@);
                        assert(added(c0, *ctx)[k] == added(c0, c1)[k]);
                    }
                }
            } else {
                assert(fields@.subrange(0, f0.len() as int) =~= f0);
                assert(new1 =~= new0.push(fields@.last()));
                assert(env_of(c1) == env_of(c0));
                assert forall|j: int|
                    0 <= j < i + 1 && is_compound(#[trigger] members@[j]) implies added(c0, *ctx).contains(
                        rejection_error(members@[j], c0.stack@),
                    ) by {
                    let k = choose|k: int| 0 <= k < added(c0, c1).len() && added(c0, c1)[k] == rejection_error(members@[j], c0.stack@);
                    assert(added(c0, *ctx)[k] == added(c0, c1)[k]);
                }
            }
        }
        i = i + 1;
    }
    proof {
        assert(members@.take(i as int) =~= members@);
    }
}


impl ast::MessageField {
    pub fn kind_name(&self) -> (r: &'static str)
        ensures
            r == kind_name_of(*self),
    {
        match self {
            ast::MessageField::Field(_) => "normal",
            ast::MessageField::Group(_) => "group",
            ast::MessageField::MapField(_) => "map",
            ast::MessageField::Oneof(_) => "oneof",
        }
    }

    pub fn span(&self) -> (r: Span)
        ensures
            r == span_of(*self),
    {
        match self {
            ast::MessageField::Field(f) => f.span,
            ast::MessageField::Group(f) => f.span,
            ast::MessageField::MapField(f) => f.span,
            ast::MessageField::Oneof(f) => f.span,
        }
    }

    /// Emits this field into the descriptors being built: its field, the
    /// messages it generates, and for a oneof the oneof with its fields. A map
    /// or a oneof where none may stand is reported and emits nothing.
    pub fn to_field_descriptors(
        &self,
        ctx: &mut Context,
        messages: &mut Vec<DescriptorProto>,
        fields: &mut Vec<FieldDescriptorProto>,
        oneofs: &mut Vec<OneofDescriptorProto>,
    )
        ensures
            same_scope(*old(ctx), *final(ctx)),
            errors_grow(*old(ctx), *final(ctx)),
            is_prefix(old(messages)@, final(messages)@),
            is_prefix(old(fields)@, final(fields)@),
            is_prefix(old(oneofs)@, final(oneofs)@),
            in_oneof_spec(old(ctx).stack@) && is_compound(*self) ==> final(ctx).errors@
                == old(ctx).errors@.push(
                CheckError::InvalidOneofFieldKind { kind: kind_name_of(*self), span: span_of(*self) },
            ) && final(messages)@ == old(messages)@ && final(fields)@ == old(fields)@
                && final(oneofs)@ == old(oneofs)@,
            !in_oneof_spec(old(ctx).stack@) && in_extend_spec(old(ctx).stack@) && is_compound(*self)
                ==> final(ctx).errors@ == old(ctx).errors@.push(
                CheckError::InvalidExtendFieldKind { kind: kind_name_of(*self), span: span_of(*self) },
            ) && final(messages)@ == old(messages)@ && final(fields)@ == old(fields)@
                && final(oneofs)@ == old(oneofs)@,
            final(oneofs)@.len() == old(oneofs)@.len() + if self is Oneof && !in_oneof_spec(
                old(ctx).stack@,
            ) && !in_extend_spec(old(ctx).stack@) {
                1int
            } else {
                0int
            },
            !(self is Oneof) ==> forall|i: int|
                old(fields)@.len() <= i < final(fields)@.len() ==> (#[trigger] final(fields)@[i]).oneof_index
                    == parent_oneof_spec(old(ctx).stack@) && final(fields)@[i].extendee
                    == parent_extendee_spec(old(ctx).stack@),
            !(self is Oneof) && !is_rejected(*self, old(ctx).stack@) ==> final(fields)@.len()
                == old(fields)@.len() + 1 && final(fields)@.drop_last() == old(fields)@ && member_emitted(
                final(fields)@.last(),
                *self,
                env_of(*old(ctx)),
            ) && final(oneofs)@ == old(oneofs)@,
            self is Field ==> final(messages)@ == old(messages)@,
            views(added(*old(ctx), *final(ctx))) == member_diags(denv(env_of(*old(ctx))), *self),
            self matches ast::MessageField::Field(x) ==> reported(
                field_checks(*x, old(ctx).syntax, old(ctx).stack@),
                added(*old(ctx), *final(ctx)),
            ),
            self matches ast::MessageField::Group(g) ==> final(messages)@.len() == old(messages)@.len()
                + 1 && final(messages)@.drop_last() == old(messages)@ && final(messages)@.last().name
                == Some(g.name.value) && body_emitted(
                final(messages)@.last(),
                g.body,
                (old(ctx).syntax, old(ctx).stack@.push(Definition::Group), old(ctx).names@, old(ctx).resolve_names),
            ),
            self matches ast::MessageField::MapField(m) ==> (!is_rejected(*self, old(ctx).stack@) ==> (
            final(messages)@.len() == old(messages)@.len() + 1 && final(messages)@.drop_last()
                == old(messages)@ && is_map_entry(final(messages)@.last(), *m, *old(ctx)))),
            self matches ast::MessageField::Oneof(o) ==> (!is_rejected(*self, old(ctx).stack@) ==> (
            final(oneofs)@.drop_last() == old(oneofs)@ && final(oneofs)@.last().name == Some(o.name.value)
                && records_option(final(oneofs)@.last().options, o.options@) && final(messages)@.len()
                >= old(messages)@.len() && final(messages)@.subrange(0, old(messages)@.len() as int)
                == old(messages)@ && messages_named(
                final(messages)@.subrange(old(messages)@.len() as int, final(messages)@.len() as int),
                member_groups(o.fields@),
                (
                    old(ctx).syntax,
                    old(ctx).stack@.push(Definition::Oneof { index: oneof_index_of(old(oneofs)@.len() as usize) }),
                    old(ctx).names@,
                    old(ctx).resolve_names,
                ),
            ) && final(fields)@.len()
                >= old(fields)@.len() && final(fields)@.subrange(0, old(fields)@.len() as int) == old(fields)@
                && members_emitted(
                final(fields)@.subrange(old(fields)@.len() as int, final(fields)@.len() as int),
                simple_members(o.fields@),
                (
                    old(ctx).syntax,
                    old(ctx).stack@.push(Definition::Oneof { index: oneof_index_of(old(oneofs)@.len() as usize) }),
                    old(ctx).names@,
                    old(ctx).resolve_names,
                ),
            ))),
        decreases self,
    {
        let ghost c0 = *ctx;
        proof {
            lemma_prefix_refl(messages@);
            lemma_prefix_refl(fields@);
            lemma_prefix_refl(oneofs@);
            lemma_added(ctx.errors@, ctx.errors@, Seq::empty());
        }
        let compound = matches!(self, ast::MessageField::Oneof(_) | ast::MessageField::MapField(_));
        if ctx.in_oneof() && compound {
            ctx.errors.push(CheckError::InvalidOneofFieldKind { kind: self.kind_name(), span: self.span() });
            proof {
                assert(added(c0, *ctx) =~= seq![ctx.errors@.last()]);
                assert(views(added(c0, *ctx)) =~= seq![Diag::Plain(rejected_diag(denv(env_of(c0)), *self))]);
                assert(ctx.errors@ =~= c0.errors@ + seq![ctx.errors@.last()]);
                lemma_added(c0.errors@, ctx.errors@, seq![ctx.errors@.last()]);
            }
            return;
        } else if ctx.in_extend() && compound {
            ctx.errors.push(CheckError::InvalidExtendFieldKind { kind: self.kind_name(), span: self.span() });
            proof {
                assert(added(c0, *ctx) =~= seq![ctx.errors@.last()]);
                assert(views(added(c0, *ctx)) =~= seq![Diag::Plain(rejected_diag(denv(env_of(c0)), *self))]);
                assert(ctx.errors@ =~= c0.errors@ + seq![ctx.errors@.last()]);
                lemma_added(c0.errors@, ctx.errors@, seq![ctx.errors@.last()]);
            }
            return;
        }
        let ghost f0 = fields@;
        let ghost m0 = messages@;
        match self {
            ast::MessageField::Field(field) => {
                let f = field.to_field_descriptor(ctx);
                fields.push(f);
                proof {
                    let n = number_error(field_number(field.number), field.number.span);
                    let l = opt_seq(label_error(c0.syntax, c0.stack@, field.label, field.span));
                    let b = choose|b: Seq<CheckError>|
                        type_errors_ok(c0, field.ty, b) && #[trigger] added(c0, *ctx)
                            == n + b + l + default_error(
                            default_of(field.options@) is Some,
                            ty_type(c0, field.ty) == Some(Type::Message),
                            "message",
                            field.span,
                        );
                    let a = added(c0, *ctx);
                    assert forall|k: int| 0 <= k < (n + l).len() implies a.contains(#[trigger] (n + l)[k]) by {
                        if k < n.len() {
                            assert(a[k] == (n + l)[k]);
                        } else {
                            assert(a[n.len() + b.len() + (k - n.len())] == (n + l)[k]);
                        }
                    }
                    assert(fields@.subrange(0, f0.len() as int) =~= f0);
                    assert(fields@.drop_last() =~= f0);
                }
            },
            ast::MessageField::Group(group) => {
                let f = group.to_field_descriptor(ctx, messages);
                fields.push(f);
                proof {
                    assert(fields@.subrange(0, f0.len() as int) =~= f0);
                    assert(fields@.drop_last() =~= f0);
                    assert(messages@.subrange(0, m0.len() as int) =~= m0);
                }
            },
            ast::MessageField::MapField(map) => {
                let f = map.to_field_descriptor(ctx, messages);
                fields.push(f);
                proof {
                    assert(fields@.subrange(0, f0.len() as int) =~= f0);
                    assert(fields@.drop_last() =~= f0);
                    assert(messages@.subrange(0, m0.len() as int) =~= m0);
                }
            },
            ast::MessageField::Oneof(oneof) => {
                let ghost o0 = oneofs@;
                let index = oneofs.len();
                let o = oneof.to_oneof_descriptor(ctx, messages, fields, index);
                oneofs.push(o);
                proof {
                    assert(oneofs@.subrange(0, o0.len() as int) =~= o0);
                    assert(oneofs@.drop_last() =~= o0);
                }
            },
        }
    }
}


impl ast::Group {
    /// The descriptor of a group field: a field of type group whose message,
    /// built from the group's body, is appended to `messages`.
    #[verifier::spinoff_prover]
    #[verifier::rlimit(100)]
    pub fn to_field_descriptor(&self, ctx: &mut Context, messages: &mut Vec<DescriptorProto>) -> (r:
        FieldDescriptorProto)
        ensures
            same_scope(*old(ctx), *final(ctx)),
            errors_grow(*old(ctx), *final(ctx)),
            final(messages)@.len() == old(messages)@.len() + 1,
            final(messages)@.drop_last() == old(messages)@,
            final(messages)@.last().name == Some(self.name.value),
            body_emitted(
                final(messages)@.last(),
                self.body,
                (old(ctx).syntax, old(ctx).stack@.push(Definition::Group), old(ctx).names@, old(ctx).resolve_names),
            ),
            group_field_emitted(r, *self, env_of(*old(ctx))),
            views(added(*old(ctx), *final(ctx))) == group_diags(denv(env_of(*old(ctx))), *self),
            is_prefix(
                number_error(field_number(self.number), self.number.span) + (if old(ctx).syntax
                    == Syntax::Proto3 {
                    seq![CheckError::Proto3GroupField { span: self.span }]
                } else {
                    opt_seq(label_error(old(ctx).syntax, old(ctx).stack@, self.label, self.span))
                }) + default_error(default_of(self.options@) is Some, true, "group", self.span),
                added(*old(ctx), *final(ctx)),
            ),
        decreases self,
    {
        let ghost c0 = *ctx;
        let lowercase = to_ascii_lowercase(self.name.value.as_str());
        let json_name = Some(to_camel_case(lowercase.as_str()));
        let field_name = Some(lowercase);
        let number = self.number.to_field_number(ctx);
        let ghost c1 = *ctx;
        let label = match self.label {
            Some(l) => Some(l.to_field_label()),
            None => Some(Label::Optional),
        };
        let (default_value, options) = to_field_options(&self.options);
        if ctx.syntax == Syntax::Proto3 {
            ctx.errors.push(CheckError::Proto3GroupField { span: self.span });
        } else {
            ctx.check_label(self.label, self.span);
        }
        let ghost c2 = *ctx;
        if default_value.is_some() {
            ctx.errors.push(CheckError::InvalidDefault { kind: "group", span: self.span });
        }
        let ghost c3 = *ctx;
        ctx.enter(Definition::Group);
        let ghost env_g = env_of(*ctx);
        let ghost c_in = *ctx;
        let mut generated_message = self.body.to_message_descriptor(ctx);
        let ghost c_b = *ctx;
        ctx.exit();
        let ghost body_desc = generated_message;
        generated_message.name = Some(self.name.value.clone());
        proof {
            assert(generated_message.field == body_desc.field && generated_message.oneof_decl == body_desc.oneof_decl);
            assert(body_emitted(generated_message, self.body, env_g));
        }
        let ghost c4 = *ctx;
        let (type_ref, _) = ctx.resolve_relative_type_name(self.name.value.clone(), self.name.span);
        let ghost c5 = *ctx;
        messages.push(generated_message);
        proof {
            assert(messages@.drop_last() =~= old(messages)@);
            let l = if c0.syntax == Syntax::Proto3 {
                seq![CheckError::Proto3GroupField { span: self.span }]
            } else {
                opt_seq(label_error(c0.syntax, c0.stack@, self.label, self.span))
            };
            let d = default_error(default_of(self.options@) is Some, true, "group", self.span);
            assert(c2.errors@ =~= c1.errors@ + l);
            assert(c3.errors@ =~= c2.errors@ + d);
            lemma_added(c0.errors@, c1.errors@, number_error(field_number(self.number), self.number.span));
            lemma_added(c1.errors@, c2.errors@, l);
            lemma_added(c2.errors@, c3.errors@, d);
            lemma_grow_trans(c0, c1, c2);
            lemma_grow_trans(c0, c2, c3);
            assert(c3.stack@.push(Definition::Group).drop_last() =~= c3.stack@);
            lemma_grow_trans(c0, c3, c4);
            lemma_grow_trans(c0, c4, c5);
            let p = number_error(field_number(self.number), self.number.span) + l + d;
            assert(added(c0, c3) =~= p);
            assert(added(c0, c5).subrange(0, p.len() as int) =~= p);
            lemma_grow_trans(c3, c4, c5);
            assert(env_of(c4) == env_of(c0));
            assert(lookup_error_ok(c0, self.name.value@, self.name.span, added(c4, c5)));
            assert(added(c0, c5) == p + added(c3, c4) + added(c4, c5));
            let dd = denv(env_of(c0));
            assert(c3.stack@.push(Definition::Group).drop_last() =~= c3.stack@);
            assert(denv(env_of(c_in)) == with_flags(dd, false, false));
            assert(added(c3, c4) =~= added(c_in, c_b));
            lemma_plain(p);
            assert(p == group_checks(dd, *self));
            lemma_lookup_view(c0, self.name.value@, self.name.span, added(c4, c5));
            lemma_views_add(p, added(c3, c4));
            lemma_views_add(p + added(c3, c4), added(c4, c5));
        }
        FieldDescriptorProto {
            name: field_name,
            number,
            label,
            ty: Some(Type::Group),
            type_ref: Some(type_ref),
            extendee: ctx.parent_extendee(),
            default_value: None,
            oneof_index: ctx.parent_oneof(),
            json_name,
            options,
            proto3_optional: None,
        }
    }
}

pub open spec fn oneof_index_of(index: usize) -> i32 {
    if index <= i32::MAX {
        index as i32
    } else {
        i32::MAX
    }
}

impl ast::Oneof {
    /// The descriptor of a oneof at `index`; its members are emitted into
    /// `fields`, in order, each pointing at it. A map or a oneof among them
    /// is reported and emits nothing.
    pub fn to_oneof_descriptor(
        &self,
        ctx: &mut Context,
        messages: &mut Vec<DescriptorProto>,
        fields: &mut Vec<FieldDescriptorProto>,
        index: usize,
    ) -> (r: OneofDescriptorProto)
        ensures
            same_scope(*old(ctx), *final(ctx)),
            errors_grow(*old(ctx), *final(ctx)),
            is_prefix(old(messages)@, final(messages)@),
            is_prefix(old(fields)@, final(fields)@),
            r.name == Some(self.name.value),
            records_option(r.options, self.options@),
            messages_named(
                final(messages)@.subrange(old(messages)@.len() as int, final(messages)@.len() as int),
                member_groups(self.fields@),
                (
                    old(ctx).syntax,
                    old(ctx).stack@.push(Definition::Oneof { index: oneof_index_of(index) }),
                    old(ctx).names@,
                    old(ctx).resolve_names,
                ),
            ),
            members_emitted(
                final(fields)@.subrange(old(fields)@.len() as int, final(fields)@.len() as int),
                simple_members(self.fields@),
                (
                    old(ctx).syntax,
                    old(ctx).stack@.push(Definition::Oneof { index: oneof_index_of(index) }),
                    old(ctx).names@,
                    old(ctx).resolve_names,
                ),
            ),
            forall|i: int|
                old(fields)@.len() <= i < final(fields)@.len() ==> (#[trigger] final(fields)@[i]).oneof_index
                    == Some(oneof_index_of(index)),
            forall|j: int|
                0 <= j < self.fields@.len() && is_compound(#[trigger] self.fields@[j]) ==> added(
                    *old(ctx),
                    *final(ctx),
                ).contains(
                    CheckError::InvalidOneofFieldKind {
                        kind: kind_name_of(self.fields@[j]),
                        span: span_of(self.fields@[j]),
                    },
                ),
            views(added(*old(ctx), *final(ctx))) == members_diags(
                with_flags(denv(env_of(*old(ctx))), true, false),
                self.fields@,
                self.fields@.len() as int,
            ),
        decreases self,
    {
        let ghost c0 = *ctx;
        let ghost f0 = fields@;
        let idx = index_to_i32(index);
        ctx.enter(Definition::Oneof { index: idx });
        let ghost c1 = *ctx;
        let name = Some(self.name.value.clone());
        emit_members(&self.fields, ctx, messages, fields);
        let ghost ce = *ctx;
        let options = to_options(&self.options);
        ctx.exit();
        proof {
            assert(c1.stack@.drop_last() =~= c0.stack@);
            assert(added(c1, ce) =~= added(c1, *ctx));
            assert(added(c0, *ctx) =~= added(c1, *ctx));
            assert(denv(env_of(c1)) == with_flags(denv(env_of(c0)), true, false));
            lemma_grow_same(c0, c1);
            lemma_grow_trans(c0, c1, *ctx);
            assert(added(c0, *ctx) =~= added(c1, *ctx));
            assert(is_prefix(f0, fields@));
            let new = fields@.subrange(f0.len() as int, fields@.len() as int);
            assert forall|i: int| f0.len() <= i < fields@.len() implies (#[trigger] fields@[i]).oneof_index
                == Some(oneof_index_of(index)) by {
                let k = i - f0.len();
                assert(new[k] == fields@[i]);
                assert(member_emitted(new[k], simple_members(self.fields@)[k], env_of(c1)));
            }
        }
        OneofDescriptorProto { name, options }
    }
}

/// `new` holds, in order, the fields the members of `e` emit in `env`,
/// each naming the extendee as resolved there.
pub open spec fn extend_emitted(new: Seq<FieldDescriptorProto>, e: ast::Extend, env: Env) -> bool {
    exists|name: String|
        name@ == resolved_name_in(env, type_name_text(e.extendee)) && #[trigger] members_emitted(
            new,
            simple_members(e.fields@),
            (env.0, env.1.push(Definition::Extend { extendee: name }), env.2, env.3),
        )
}

/// `ms` are the messages of the groups among the members of `e`, built in
/// the extend's scope.
pub open spec fn extend_groups_emitted(ms: Seq<DescriptorProto>, e: ast::Extend, env: Env) -> bool {
    exists|name: String|
        name@ == resolved_name_in(env, type_name_text(e.extendee)) && #[trigger] messages_named(
            ms,
            member_groups(e.fields@),
            (env.0, env.1.push(Definition::Extend { extendee: name }), env.2, env.3),
        )
}

impl ast::Extend {
    /// Emits the members of an extend, in order, each naming the resolved
    /// extendee and none in a oneof. A map or a oneof among them is reported
    /// and emits nothing; an extendee that is not a message is reported.
    pub fn to_field_descriptors(
        &self,
        ctx: &mut Context,
        messages: &mut Vec<DescriptorProto>,
        fields: &mut Vec<FieldDescriptorProto>,
    )
        ensures
            same_scope(*old(ctx), *final(ctx)),
            errors_grow(*old(ctx), *final(ctx)),
            is_prefix(old(messages)@, final(messages)@),
            is_prefix(old(fields)@, final(fields)@),
            extend_emitted(
                final(fields)@.subrange(old(fields)@.len() as int, final(fields)@.len() as int),
                *self,
                env_of(*old(ctx)),
            ),
            extend_groups_emitted(
                final(messages)@.subrange(old(messages)@.len() as int, final(messages)@.len() as int),
                *self,
                env_of(*old(ctx)),
            ),
            forall|i: int|
                old(fields)@.len() <= i < final(fields)@.len() ==> string_view(
                    (#[trigger] final(fields)@[i]).extendee,
                ) == Some(resolved_name(*old(ctx), type_name_text(self.extendee)))
                    && final(fields)@[i].oneof_index is None,
            forall|j: int|
                0 <= j < self.fields@.len() && is_compound(#[trigger] self.fields@[j]) ==> added(
                    *old(ctx),
                    *final(ctx),
                ).contains(
                    CheckError::InvalidExtendFieldKind {
                        kind: kind_name_of(self.fields@[j]),
                        span: span_of(self.fields@[j]),
                    },
                ),
            bad_message_kind(resolved_kind(*old(ctx), type_name_text(self.extendee))) ==> added(
                *old(ctx),
                *final(ctx),
            ).len() > 0 && (added(*old(ctx), *final(ctx))[0] matches CheckError::InvalidExtendeeTypeName {
                name,
                span,
            } && name@ == type_name_text(self.extendee) && span == self.extendee.span),
            views(added(*old(ctx), *final(ctx))) == extend_diags(denv(env_of(*old(ctx))), *self),
        decreases self,
    {
        let ghost c0 = *ctx;
        let ghost f0 = fields@;
        let (extendee, kind) = ctx.resolve_type_name(&self.extendee);
        let ghost cr = *ctx;
        let bad = match kind {
            None => false,
            Some(DefinitionKind::Message) => false,
            Some(DefinitionKind::Group) => false,
            Some(_) => true,
        };
        if bad {
            ctx.errors.push(
                CheckError::InvalidExtendeeTypeName { name: self.extendee.to_text(), span: self.extendee.span },
            );
        }
        let ghost c1 = *ctx;
        proof {
            let dd = denv(env_of(c0));
            let text = type_name_text(self.extendee);
            if bad {
                assert(c1.errors@ =~= c0.errors@ + seq![c1.errors@.last()]);
                lemma_added(c0.errors@, c1.errors@, seq![c1.errors@.last()]);
                assert(!lookup_fails(c0, text));
                assert(cr.errors@ =~= c0.errors@);
                assert(views(added(c0, c1)) =~= extendee_diags(dd, self.extendee));
            } else {
                assert(c1.errors@ =~= c0.errors@ + added(c0, c1));
                lemma_lookup_view(c0, text, self.extendee.span, added(c0, c1));
                assert(views(added(c0, c1)) == extendee_diags(dd, self.extendee));
            }
        }
        let ghost e = extendee;
        ctx.enter(Definition::Extend { extendee });
        let ghost c2 = *ctx;
        emit_members(&self.fields, ctx, messages, fields);
        let ghost ce = *ctx;
        ctx.exit();
        proof {
            assert(c2.stack@.drop_last() =~= c0.stack@);
            assert(denv(env_of(c2)) == with_flags(denv(env_of(c0)), false, true));
            lemma_grow_same(c1, c2);
            assert(added(c2, ce) =~= added(c2, *ctx));
            lemma_views_grow(c0, c1, c2);
            lemma_views_grow(c0, c2, *ctx);
            lemma_grow_same(c1, c2);
            lemma_grow_trans(c0, c1, c2);
            lemma_grow_trans(c0, c2, *ctx);
            if bad {
                assert(added(c0, *ctx)[0] == added(c0, c1)[0]);
            }
            let new = fields@.subrange(f0.len() as int, fields@.len() as int);
            assert(env_of(c2) == (c0.syntax, c0.stack@.push(Definition::Extend { extendee: e }), c0.names@, c0.resolve_names));
            assert(members_emitted(new, simple_members(self.fields@), env_of(c2)));
            assert(extend_emitted(new, *self, env_of(c0)));
            assert(messages_named(
                messages@.subrange(old(messages)@.len() as int, messages@.len() as int),
                member_groups(self.fields@),
                env_of(c2),
            ));
            assert forall|i: int| f0.len() <= i < fields@.len() implies string_view(
                (#[trigger] fields@[i]).extendee,
            ) == Some(resolved_name(c0, type_name_text(self.extendee))) && fields@[i].oneof_index is None by {
                let k = i - f0.len();
                assert(new[k] == fields@[i]);
                assert(member_emitted(new[k], simple_members(self.fields@)[k], env_of(c2)));
            }
            assert forall|j: int|
                0 <= j < self.fields@.len() && is_compound(#[trigger] self.fields@[j]) implies added(c0, *ctx).contains(
                    CheckError::InvalidExtendFieldKind { kind: kind_name_of(self.fields@[j]), span: span_of(self.fields@[j]) },
                ) by {
                assert(added(c2, *ctx).contains(rejection_error(self.fields@[j], c2.stack@)));
                let k = choose|k: int| 0 <= k < added(c2, *ctx).len() && added(c2, *ctx)[k] == rejection_error(self.fields@[j], c2.stack@);
                assert(added(c0, *ctx)[added(c0, c2).len() + k] == added(c2, *ctx)[k]);
            }
        }
    }
}

impl ast::Extensions {
    /// Emits the extension ranges declared together, each with their options.
    pub fn to_extension_ranges(&self, ctx: &mut Context, ranges: &mut Vec<ExtensionRange>)
        ensures
            same_scope(*old(ctx), *final(ctx)),
            errors_grow(*old(ctx), *final(ctx)),
            final(ctx).errors@ == old(ctx).errors@ + ranges_errors(self.ranges@),
            final(ranges)@.len() == old(ranges)@.len() + self.ranges@.len(),
            final(ranges)@.subrange(0, old(ranges)@.len() as int) == old(ranges)@,
            forall|i: int|
                0 <= i < self.ranges@.len() ==> {
                    let e = #[trigger] final(ranges)@[old(ranges)@.len() + i];
                    e.start == field_number(self.ranges@[i].start) && e.end == reserved_end(
                        self.ranges@[i],
                    ) && records_option(e.options, self.options@)
                },
    {
        let ghost r0 = ranges@;
        let mut i: usize = 0;
        proof {
            assert(self.ranges@.take(0) =~= Seq::<ast::ReservedRange>::empty());
            assert(ctx.errors@ =~= old(ctx).errors@ + ranges_errors(self.ranges@.take(0)));
            lemma_added(ctx.errors@, ctx.errors@, Seq::empty());
        }
        while i < self.ranges.len()
            invariant
                i <= self.ranges@.len(),
                same_scope(*old(ctx), *ctx),
                errors_grow(*old(ctx), *ctx),
                ctx.errors@ == old(ctx).errors@ + ranges_errors(self.ranges@.take(i as int)),
                ranges@.len() == r0.len() + i,
                ranges@.subrange(0, r0.len() as int) == r0,
                r0 == old(ranges)@,
                forall|k: int|
                    0 <= k < i ==> {
                        let e = #[trigger] ranges@[r0.len() + k];
                        e.start == field_number(self.ranges@[k].start) && e.end == reserved_end(
                            self.ranges@[k],
                        ) && records_option(e.options, self.options@)
                    },
            decreases self.ranges@.len() - i,
        {
            let ghost c0 = *ctx;
            let mut range = self.ranges[i].to_extension_range(ctx);
            range.options = to_options(&self.options);
            let ghost before = ranges@;
            ranges.push(range);
            proof {
                lemma_added(c0.errors@, ctx.errors@, reserved_errors(self.ranges@[i as int]));
                lemma_grow_trans(*old(ctx), c0, *ctx);
                assert(self.ranges@.take(i + 1).drop_last() =~= self.ranges@.take(i as int));
                assert(ctx.errors@ =~= old(ctx).errors@ + ranges_errors(self.ranges@.take(i + 1)));
                assert(ranges@.subrange(0, r0.len() as int) =~= before.subrange(0, r0.len() as int));
                assert forall|k: int| 0 <= k < i + 1 implies {
                    let e = #[trigger] ranges@[r0.len() + k];
                    e.start == field_number(self.ranges@[k].start) && e.end == reserved_end(
                        self.ranges@[k],
                    ) && records_option(e.options, self.options@)
                } by {
                    if k < i {
                        assert(ranges@[r0.len() + k] == before[r0.len() + k]);
                    }
                }
            }
            i = i + 1;
        }
        proof {
            assert(self.ranges@.take(i as int) =~= self.ranges@);
        }
    }
}

/// How many fields an item of a body emits directly.
pub open spec fn item_field_count(item: ast::MessageItem) -> int {
    match item {
        ast::MessageItem::Field(ast::MessageField::Oneof(o)) => simple_members(o.fields@).len() as int,
        ast::MessageItem::Field(_) => 1,
        _ => 0,
    }
}

/// How many fields the first `n` items emit.
#[verifier::opaque]
pub open spec fn fields_before(items: Seq<ast::MessageItem>, n: int) -> int
    decreases n,
{
    if n <= 0 {
        0
    } else {
        fields_before(items, n - 1) + item_field_count(items[n - 1])
    }
}

proof fn lemma_fields_before_mono(items: Seq<ast::MessageItem>, a: int, b: int)
    requires
        0 <= a <= b,
    ensures
        0 <= fields_before(items, a) <= fields_before(items, b),
    decreases b - a,
{
    reveal(fields_before);
    if a < b {
        lemma_fields_before_mono(items, a, b - 1);
    } else {
        lemma_fields_before_nonneg(items, a);
    }
}

proof fn lemma_fields_before_nonneg(items: Seq<ast::MessageItem>, n: int)
    ensures
        fields_before(items, n) >= 0,
    decreases n,
{
    reveal(fields_before);
    if n > 0 {
        lemma_fields_before_nonneg(items, n - 1);
    }
}

proof fn lemma_fields_before_step(items: Seq<ast::MessageItem>, n: int)
    requires
        n >= 0,
    ensures
        fields_before(items, n + 1) == fields_before(items, n) + item_field_count(items[n]),
{
    reveal(fields_before);
}

/// `fs` are the fields that `item` emits in `env`, after `oneofs_before`
/// declared oneofs: one for a field, a group or a map, and the members of a
/// oneof, which point at it.
#[verifier::opaque]
pub open spec fn item_fields_ok(fs: Seq<FieldDescriptorProto>, item: ast::MessageItem, oneofs_before: int, env: Env) -> bool {
    match item {
        ast::MessageItem::Field(ast::MessageField::Oneof(o)) => members_emitted(
            fs,
            simple_members(o.fields@),
            (env.0, env.1.push(Definition::Oneof { index: oneof_index_of(oneofs_before as usize) }), env.2, env.3),
        ),
        ast::MessageItem::Field(f) => fs.len() == 1 && member_emitted(fs[0], f, env),
        _ => fs.len() == 0,
    }
}

/// `fs` are, in order, the fields that the first `n` items of a body emit
/// in `env`.
pub open spec fn body_fields_ok(fs: Seq<FieldDescriptorProto>, items: Seq<ast::MessageItem>, n: int, env: Env) -> bool {
    &&& fs.len() == fields_before(items, n)
    &&& forall|i: int|
        0 <= i < n ==> item_fields_ok(
            fs.subrange(fields_before(items, i), fields_before(items, i + 1)),
            #[trigger] items[i],
            oneof_item_count(items.take(i)),
            env,
        )
}

/// The oneofs a body declares, in order.
pub open spec fn declared_oneofs(items: Seq<ast::MessageItem>) -> Seq<ast::Oneof>
    decreases items.len(),
{
    if items.len() == 0 {
        Seq::empty()
    } else {
        declared_oneofs(items.drop_last()) + match items.last() {
            ast::MessageItem::Field(ast::MessageField::Oneof(o)) => seq![o],
            _ => Seq::empty(),
        }
    }
}

proof fn lemma_declared_oneofs_len(items: Seq<ast::MessageItem>)
    ensures
        declared_oneofs(items).len() == oneof_item_count(items),
    decreases items.len(),
{
    if items.len() > 0 {
        lemma_declared_oneofs_len(items.drop_last());
    }
}

/// The enums a body declares, in order.
pub open spec fn body_enums(items: Seq<ast::MessageItem>) -> Seq<ast::Enum>
    decreases items.len(),
{
    if items.len() == 0 {
        Seq::empty()
    } else {
        body_enums(items.drop_last()) + match items.last() {
            ast::MessageItem::Enum(e) => seq![e],
            _ => Seq::empty(),
        }
    }
}

/// The declared oneofs lead `ds`, one for one and in order, each with its
/// name and options.
pub open spec fn oneofs_declared(ds: Seq<OneofDescriptorProto>, os: Seq<ast::Oneof>) -> bool {
    ds.len() >= os.len() && forall|j: int|
        0 <= j < os.len() ==> (#[trigger] ds[j]).name == Some(os[j].name.value) && records_option(
            ds[j].options,
            os[j].options@,
        )
}

/// For each extension range declared, in order, the options declared with
/// it.
pub open spec fn extension_options(exts: Seq<ast::Extensions>) -> Seq<Seq<ast::OptionBody>>
    decreases exts.len(),
{
    if exts.len() == 0 {
        Seq::empty()
    } else {
        extension_options(exts.drop_last()) + Seq::new(
            exts.last().ranges@.len(),
            |k: int| exts.last().options@,
        )
    }
}

/// `d` is the descriptor of a body checked in `env`: its fields as the
/// items emit them, given their synthetic oneofs after the declared ones;
/// its reserved ranges, reserved names and options.
pub open spec fn body_emitted(d: DescriptorProto, body: ast::MessageBody, env: Env) -> bool {
    &&& records_option(d.options, body.options@)
    &&& oneofs_declared(d.oneof_decl@, declared_oneofs(body.items@))
    &&& d.enum_type@.len() == body_enums(body.items@).len()
    &&& forall|k: int| 0 <= k < d.enum_type@.len() ==> enum_emitted(#[trigger] d.enum_type@[k], body_enums(body.items@)[k])
    &&& d.extension_range@.len() == extension_options(body.extensions@).len()
    &&& forall|k: int|
        0 <= k < d.extension_range@.len() ==> records_option(
            (#[trigger] d.extension_range@[k]).options,
            extension_options(body.extensions@)[k],
        )
    &&& d.reserved_range@ == reserved_ranges_of(body.reserved@)
    &&& d.reserved_name@ == reserved_names_of(body.reserved@)
    &&& exists|before: Seq<FieldDescriptorProto>|
        #[trigger] body_fields_ok(before, body.items@, body.items@.len() as int, env) && if before.len()
            + oneof_item_count(body.items@) <= i32::MAX {
            synthetic_oneofs_ok(before, d.field@, d.oneof_decl@, oneof_item_count(body.items@))
        } else {
            d.field@ == before
        }
}

#[verifier::spinoff_prover]
#[verifier::rlimit(100)]
proof fn lemma_body_fields_step(
    old_fs: Seq<FieldDescriptorProto>,
    new_fs: Seq<FieldDescriptorProto>,
    items: Seq<ast::MessageItem>,
    i: int,
    env: Env,
)
    requires
        0 <= i < items.len(),
        body_fields_ok(old_fs, items, i, env),
        new_fs.len() == fields_before(items, i + 1),
        new_fs.len() >= old_fs.len(),
        new_fs.subrange(0, old_fs.len() as int) == old_fs,
        item_fields_ok(
            new_fs.subrange(fields_before(items, i), fields_before(items, i + 1)),
            items[i],
            oneof_item_count(items.take(i)),
            env,
        ),
    ensures
        body_fields_ok(new_fs, items, i + 1, env),
{
    assert forall|k: int| 0 <= k < i + 1 implies item_fields_ok(
        new_fs.subrange(fields_before(items, k), fields_before(items, k + 1)),
        #[trigger] items[k],
        oneof_item_count(items.take(k)),
        env,
    ) by {
        if k < i {
            let lo = fields_before(items, k);
            let hi = fields_before(items, k + 1);
            let c = oneof_item_count(items.take(k));
            lemma_fields_before_mono(items, k, k + 1);
            lemma_fields_before_mono(items, k + 1, i);
            assert(item_fields_ok(old_fs.subrange(lo, hi), items[k], c, env));
            assert(new_fs.subrange(lo, hi) =~= old_fs.subrange(lo, hi));
        }
    }
}

/// How many extension fields an item of a body emits directly.
pub open spec fn item_extension_count(item: ast::MessageItem) -> int {
    match item {
        ast::MessageItem::Extend(e) => simple_members(e.fields@).len() as int,
        _ => 0,
    }
}

/// How many extension fields the first `n` items emit.
#[verifier::opaque]
pub open spec fn extensions_before(items: Seq<ast::MessageItem>, n: int) -> int
    decreases n,
{
    if n <= 0 {
        0
    } else {
        extensions_before(items, n - 1) + item_extension_count(items[n - 1])
    }
}

proof fn lemma_extensions_before(items: Seq<ast::MessageItem>, a: int, b: int)
    requires
        0 <= a <= b,
    ensures
        0 <= extensions_before(items, a) <= extensions_before(items, b),
        extensions_before(items, a + 1) == extensions_before(items, a) + item_extension_count(items[a]),
    decreases b - a, a,
{
    reveal(extensions_before);
    if a < b {
        lemma_extensions_before(items, a, b - 1);
    } else if a > 0 {
        lemma_extensions_before(items, a - 1, a - 1);
    }
}

#[verifier::opaque]
pub open spec fn item_extensions_ok(fs: Seq<FieldDescriptorProto>, item: ast::MessageItem, env: Env) -> bool {
    match item {
        ast::MessageItem::Extend(e) => extend_emitted(fs, e, env),
        _ => fs.len() == 0,
    }
}

/// `fs` are, in order, the extension fields that the first `n` items of a
/// body emit in `env`.
pub open spec fn body_extensions_ok(fs: Seq<FieldDescriptorProto>, items: Seq<ast::MessageItem>, n: int, env: Env) -> bool {
    &&& fs.len() == extensions_before(items, n)
    &&& forall|i: int|
        0 <= i < n ==> item_extensions_ok(
            fs.subrange(extensions_before(items, i), extensions_before(items, i + 1)),
            #[trigger] items[i],
            env,
        )
}

#[verifier::spinoff_prover]
#[verifier::rlimit(100)]
proof fn lemma_body_extensions_step(
    old_fs: Seq<FieldDescriptorProto>,
    new_fs: Seq<FieldDescriptorProto>,
    items: Seq<ast::MessageItem>,
    i: int,
    env: Env,
)
    requires
        0 <= i < items.len(),
        body_extensions_ok(old_fs, items, i, env),
        new_fs.len() == extensions_before(items, i + 1),
        new_fs.len() >= old_fs.len(),
        new_fs.subrange(0, old_fs.len() as int) == old_fs,
        item_extensions_ok(
            new_fs.subrange(extensions_before(items, i), extensions_before(items, i + 1)),
            items[i],
            env,
        ),
    ensures
        body_extensions_ok(new_fs, items, i + 1, env),
{
    assert forall|k: int| 0 <= k < i + 1 implies item_extensions_ok(
        new_fs.subrange(extensions_before(items, k), extensions_before(items, k + 1)),
        #[trigger] items[k],
        env,
    ) by {
        if k < i {
            let lo = extensions_before(items, k);
            let hi = extensions_before(items, k + 1);
            lemma_extensions_before(items, k, i);
            lemma_extensions_before(items, k + 1, i);
            assert(new_fs.subrange(lo, hi) =~= old_fs.subrange(lo, hi));
        }
    }
}

/// How many nested messages an item of a body adds directly: its own
/// message, a group's or a map's, the groups of a oneof or an extend.
pub open spec fn item_nested_count(item: ast::MessageItem) -> int {
    match item {
        ast::MessageItem::Field(ast::MessageField::Group(_)) => 1,
        ast::MessageItem::Field(ast::MessageField::MapField(_)) => 1,
        ast::MessageItem::Field(ast::MessageField::Oneof(o)) => member_groups(o.fields@).len() as int,
        ast::MessageItem::Field(ast::MessageField::Field(_)) => 0,
        ast::MessageItem::Message(_) => 1,
        ast::MessageItem::Extend(e) => member_groups(e.fields@).len() as int,
        ast::MessageItem::Enum(_) => 0,
    }
}

#[verifier::opaque]
pub open spec fn nested_before(items: Seq<ast::MessageItem>, n: int) -> int
    decreases n,
{
    if n <= 0 {
        0
    } else {
        nested_before(items, n - 1) + item_nested_count(items[n - 1])
    }
}

proof fn lemma_nested_before(items: Seq<ast::MessageItem>, a: int, b: int)
    requires
        0 <= a <= b,
    ensures
        0 <= nested_before(items, a) <= nested_before(items, b),
        nested_before(items, a + 1) == nested_before(items, a) + item_nested_count(items[a]),
    decreases b - a, a,
{
    reveal(nested_before);
    if a < b {
        lemma_nested_before(items, a, b - 1);
    } else if a > 0 {
        lemma_nested_before(items, a - 1, a - 1);
    }
}

/// `ms` are the nested messages `item` adds in `env`: a message's or a
/// group's descriptor, a map's entry, the groups of a oneof or an extend.
#[verifier::opaque]
pub open spec fn item_nested_ok(ms: Seq<DescriptorProto>, item: ast::MessageItem, oneofs_before: int, env: Env) -> bool {
    match item {
        ast::MessageItem::Field(ast::MessageField::Group(g)) => ms.len() == 1 && ms[0].name == Some(g.name.value)
            && body_emitted(ms[0], g.body, (env.0, env.1.push(Definition::Group), env.2, env.3)),
        ast::MessageItem::Field(ast::MessageField::MapField(m)) => ms.len() == 1 && is_map_entry_in(ms[0], m, env),
        ast::MessageItem::Field(ast::MessageField::Oneof(o)) => messages_named(
            ms,
            member_groups(o.fields@),
            (env.0, env.1.push(Definition::Oneof { index: oneof_index_of(oneofs_before as usize) }), env.2, env.3),
        ),
        ast::MessageItem::Field(ast::MessageField::Field(_)) => ms.len() == 0,
        ast::MessageItem::Message(m) => ms.len() == 1 && ms[0].name == Some(m.name.value) && exists|full_name: String|
            full_name@ == join(scope_of(env.1), m.name.value@) && #[trigger] body_emitted(
                ms[0],
                m.body,
                (env.0, env.1.push(Definition::Message { full_name }), env.2, env.3),
            ),
        ast::MessageItem::Extend(e) => extend_groups_emitted(ms, e, env),
        ast::MessageItem::Enum(_) => ms.len() == 0,
    }
}

/// `ms` are, in order, the nested messages the first `n` items of a body
/// add.
pub open spec fn body_nested_ok(ms: Seq<DescriptorProto>, items: Seq<ast::MessageItem>, n: int, env: Env) -> bool {
    &&& ms.len() == nested_before(items, n)
    &&& forall|i: int|
        0 <= i < n ==> item_nested_ok(
            ms.subrange(nested_before(items, i), nested_before(items, i + 1)),
            #[trigger] items[i],
            oneof_item_count(items.take(i)),
            env,
        )
}

#[verifier::spinoff_prover]
#[verifier::rlimit(100)]
proof fn lemma_body_nested_step(
    old_ms: Seq<DescriptorProto>,
    new_ms: Seq<DescriptorProto>,
    items: Seq<ast::MessageItem>,
    i: int,
    env: Env,
)
    requires
        0 <= i < items.len(),
        body_nested_ok(old_ms, items, i, env),
        new_ms.len() == nested_before(items, i + 1),
        new_ms.len() >= old_ms.len(),
        new_ms.subrange(0, old_ms.len() as int) == old_ms,
        item_nested_ok(new_ms.subrange(nested_before(items, i), nested_before(items, i + 1)), items[i], oneof_item_count(items.take(i)), env),
    ensures
        body_nested_ok(new_ms, items, i + 1, env),
{
    assert forall|k: int| 0 <= k < i + 1 implies item_nested_ok(
        new_ms.subrange(nested_before(items, k), nested_before(items, k + 1)),
        #[trigger] items[k],
        oneof_item_count(items.take(k)),
        env,
    ) by {
        if k < i {
            let lo = nested_before(items, k);
            let hi = nested_before(items, k + 1);
            lemma_nested_before(items, k, i);
            lemma_nested_before(items, k + 1, i);
            assert(item_nested_ok(old_ms.subrange(lo, hi), items[k], oneof_item_count(items.take(k)), env));
            assert(new_ms.subrange(lo, hi) =~= old_ms.subrange(lo, hi));
        }
    }
}

/// The bounds of the extension ranges declared, in order.
pub open spec fn extension_bounds(exts: Seq<ast::Extensions>) -> Seq<(Option<i32>, Option<i32>)>
    decreases exts.len(),
{
    if exts.len() == 0 {
        Seq::empty()
    } else {
        extension_bounds(exts.drop_last()) + exts.last().ranges@.map_values(
            |r: ast::ReservedRange| (field_number(r.start), reserved_end(r)),
        )
    }
}

impl ast::MessageBody {
    /// The descriptor of a message body, without a name: fields, nested and
    /// generated messages in order of discovery, enums, oneofs (declared
    /// ones first, then one for each proto3 optional field), extensions,
    /// ranges and options.
    #[verifier::spinoff_prover]
    #[verifier::rlimit(100)]
    pub fn to_message_descriptor(&self, ctx: &mut Context) -> (r: DescriptorProto)
        requires
            !in_oneof_spec(old(ctx).stack@),
            !in_extend_spec(old(ctx).stack@),
        ensures
            same_scope(*old(ctx), *final(ctx)),
            errors_grow(*old(ctx), *final(ctx)),
            r.name is None,
            body_emitted(r, *self, env_of(*old(ctx))),
            r.extension_range@.map_values(|e: ExtensionRange| (e.start, e.end)) == extension_bounds(self.extensions@),
            body_extensions_ok(r.extension@, self.items@, self.items@.len() as int, env_of(*old(ctx))),
            body_nested_ok(r.nested_type@, self.items@, self.items@.len() as int, env_of(*old(ctx))),
            views(added(*old(ctx), *final(ctx))) == body_diags(denv(env_of(*old(ctx))), *self),
            forall|i: int|
                0 <= i < self.items@.len() ==> (#[trigger] self.items@[i] matches ast::MessageItem::Field(
                    ast::MessageField::Field(x),
                ) ==> reported(
                    field_checks(x, old(ctx).syntax, old(ctx).stack@),
                    added(*old(ctx), *final(ctx)),
                )),
        decreases self,
    {
        let mut field: Vec<FieldDescriptorProto> = Vec::new();
        let mut nested_type: Vec<DescriptorProto> = Vec::new();
        let mut enum_type: Vec<EnumDescriptorProto> = Vec::new();
        let mut oneof_decl: Vec<OneofDescriptorProto> = Vec::new();
        let mut extension: Vec<FieldDescriptorProto> = Vec::new();
        let mut i: usize = 0;
        proof {
            lemma_added(ctx.errors@, ctx.errors@, Seq::empty());
            assert(self.items@.take(0) =~= Seq::<ast::MessageItem>::empty());
            reveal(fields_before);
            assert(fields_before(self.items@, 0) == 0);
            reveal(extensions_before);
            assert(extensions_before(self.items@, 0) == 0);
            reveal(nested_before);
            assert(nested_before(self.items@, 0) == 0);
            assert(views(added(*old(ctx), *ctx)) =~= Seq::<Diag>::empty());
        }
        while i < self.items.len()
            invariant
                i <= self.items@.len(),
                same_scope(*old(ctx), *ctx),
                errors_grow(*old(ctx), *ctx),
                !in_oneof_spec(ctx.stack@),
                !in_extend_spec(ctx.stack@),
                oneof_decl@.len() == oneof_item_count(self.items@.take(i as int)),
                oneof_decl@.len() == declared_oneofs(self.items@.take(i as int)).len(),
                oneofs_declared(oneof_decl@, declared_oneofs(self.items@.take(i as int))),
                enum_type@.len() == body_enums(self.items@.take(i as int)).len(),
                forall|k: int| 0 <= k < enum_type@.len() ==> enum_emitted(#[trigger] enum_type@[k], body_enums(self.items@.take(i as int))[k]),
                body_fields_ok(field@, self.items@, i as int, env_of(*old(ctx))),
                body_extensions_ok(extension@, self.items@, i as int, env_of(*old(ctx))),
                body_nested_ok(nested_type@, self.items@, i as int, env_of(*old(ctx))),
                views(added(*old(ctx), *ctx)) == items_diags(denv(env_of(*old(ctx))), self.items@, i as int),
                forall|k: int|
                    0 <= k < i ==> (#[trigger] self.items@[k] matches ast::MessageItem::Field(
                        ast::MessageField::Field(x),
                    ) ==> reported(field_checks(x, old(ctx).syntax, old(ctx).stack@), added(*old(ctx), *ctx))),
            decreases self.items@.len() - i,
        {
            let ghost c0 = *ctx;
            let ghost f0 = field@;
            let ghost x0 = extension@;
            let ghost n0 = nested_type@;
            let ghost en0 = enum_type@;
            let ghost o0 = oneof_decl@;
            assert(self.items@.take(i + 1).drop_last() =~= self.items@.take(i as int));
            match &self.items[i] {
                ast::MessageItem::Field(f) => {
                    f.to_field_descriptors(ctx, &mut nested_type, &mut field, &mut oneof_decl);
                },
                ast::MessageItem::Enum(e) => {
                    let d = e.to_enum_descriptor(ctx);
                    enum_type.push(d);
                },
                ast::MessageItem::Message(m) => {
                    let d = m.to_message_descriptor(ctx);
                    nested_type.push(d);
                },
                ast::MessageItem::Extend(e) => {
                    e.to_field_descriptors(ctx, &mut nested_type, &mut extension);
                },
            }
            proof {
                lemma_grow_trans(*old(ctx), c0, *ctx);
                let items = self.items@;
                lemma_fields_before_mono(items, i as int, i + 1);
                lemma_fields_before_step(items, i as int);
                let lo = fields_before(items, i as int);
                let hi = fields_before(items, i + 1);
                assert(env_of(c0) == env_of(*old(ctx)));
                assert(item_fields_ok(field@.subrange(lo, hi), items[i as int], oneof_item_count(items.take(i as int)), env_of(*old(ctx)))) by {
                    reveal(item_fields_ok);
                    match items[i as int] {
                        ast::MessageItem::Field(ast::MessageField::Oneof(o)) => {
                            assert(field@.subrange(lo, hi) =~= field@.subrange(f0.len() as int, field@.len() as int));
                        },
                        ast::MessageItem::Field(f) => {
                            assert(field@ == f0.push(field@.last()));
                            assert(field@.subrange(lo, hi) =~= seq![field@.last()]);
                        },
                        _ => {
                            assert(field@ == f0);
                            assert(field@.subrange(lo, hi) =~= Seq::<FieldDescriptorProto>::empty());
                        },
                    }
                }
                if items[i as int] is Field {
                    if field@.len() == f0.len() + 1 {
                        assert(field@.subrange(0, f0.len() as int) =~= field@.drop_last());
                    }
                } else {
                    assert(field@.subrange(0, f0.len() as int) =~= f0);
                }
                assert(field@.subrange(0, f0.len() as int) == f0);
                lemma_body_fields_step(f0, field@, items, i as int, env_of(*old(ctx)));
                lemma_extensions_before(items, i as int, i as int);
                let xlo = extensions_before(items, i as int);
                let xhi = extensions_before(items, i + 1);
                assert(item_extensions_ok(extension@.subrange(xlo, xhi), items[i as int], env_of(*old(ctx)))) by {
                    reveal(item_extensions_ok);
                    match items[i as int] {
                        ast::MessageItem::Extend(e) => {
                            assert(extension@.subrange(xlo, xhi) =~= extension@.subrange(x0.len() as int, extension@.len() as int));
                        },
                        _ => {
                            assert(extension@ == x0);
                            assert(extension@.subrange(xlo, xhi) =~= Seq::<FieldDescriptorProto>::empty());
                        },
                    }
                }
                if !(items[i as int] is Extend) {
                    assert(extension@.subrange(0, x0.len() as int) =~= x0);
                }
                assert(extension@.subrange(0, x0.len() as int) == x0);
                lemma_body_extensions_step(x0, extension@, items, i as int, env_of(*old(ctx)));
                lemma_nested_before(items, i as int, i as int);
                let nlo = nested_before(items, i as int);
                let nhi = nested_before(items, i + 1);
                let fresh_ms = nested_type@.subrange(n0.len() as int, nested_type@.len() as int);
                assert(nested_type@.len() >= n0.len() && nested_type@.subrange(0, n0.len() as int) =~= n0) by {
                    match items[i as int] {
                        ast::MessageItem::Field(ast::MessageField::Field(_)) => {},
                        ast::MessageItem::Enum(_) => {},
                        ast::MessageItem::Extend(_) => {},
                        ast::MessageItem::Field(ast::MessageField::Oneof(_)) => {},
                        _ => {
                            assert(nested_type@.drop_last() == n0);
                        },
                    }
                }
                assert(item_nested_ok(nested_type@.subrange(nlo, nhi), items[i as int], oneof_item_count(items.take(i as int)), env_of(*old(ctx)))) by {
                    reveal(item_nested_ok);
                    assert(nested_type@.subrange(nlo, nhi) =~= fresh_ms);
                    match items[i as int] {
                        ast::MessageItem::Field(ast::MessageField::MapField(m)) => {
                            assert(fresh_ms =~= seq![nested_type@.last()]);
                        },
                        ast::MessageItem::Field(ast::MessageField::Group(g)) => {
                            assert(fresh_ms =~= seq![nested_type@.last()]);
                        },
                        ast::MessageItem::Message(m) => {
                            assert(fresh_ms =~= seq![nested_type@.last()]);
                        },
                        ast::MessageItem::Field(ast::MessageField::Field(_)) => {
                            assert(fresh_ms =~= Seq::<DescriptorProto>::empty());
                        },
                        ast::MessageItem::Enum(_) => {
                            assert(fresh_ms =~= Seq::<DescriptorProto>::empty());
                        },
                        _ => {},
                    }
                }
                lemma_body_nested_step(n0, nested_type@, items, i as int, env_of(*old(ctx)));
                lemma_views_grow(*old(ctx), c0, *ctx);
                let tk = self.items@.take(i as int);
                let tk1 = self.items@.take(i + 1);
                assert(tk1.drop_last() =~= tk);
                assert(tk1.last() == items[i as int]);
                if items[i as int] is Field && !(items[i as int] matches ast::MessageItem::Field(ast::MessageField::Oneof(_))) {
                    assert(oneof_decl@ == o0);
                }
                assert(oneofs_declared(oneof_decl@, declared_oneofs(tk1))) by {
                    assert forall|j: int| 0 <= j < declared_oneofs(tk1).len() implies (#[trigger] oneof_decl@[j]).name == Some(declared_oneofs(tk1)[j].name.value)
                        && records_option(oneof_decl@[j].options, declared_oneofs(tk1)[j].options@) by {
                        if j < declared_oneofs(tk).len() {
                            assert(oneof_decl@[j] == o0[j]);
                            assert(declared_oneofs(tk1)[j] == declared_oneofs(tk)[j]);
                        }
                    }
                }
                assert forall|k: int| 0 <= k < enum_type@.len() implies enum_emitted(#[trigger] enum_type@[k], body_enums(tk1)[k]) by {
                    if k < en0.len() {
                        assert(enum_type@[k] == en0[k]);
                        assert(body_enums(tk1)[k] == body_enums(tk)[k]);
                    }
                }
                if let ast::MessageItem::Enum(e) = items[i as int] {
                    lemma_added(c0.errors@, ctx.errors@, enum_diags(e));
                }
                assert(views(added(c0, *ctx)) == item_diags(denv(env_of(*old(ctx))), items[i as int]));
                assert(added(*old(ctx), *ctx) == added(*old(ctx), c0) + added(c0, *ctx));
                assert forall|k: int|
                    0 <= k < i + 1 implies (#[trigger] self.items@[k] matches ast::MessageItem::Field(
                        ast::MessageField::Field(x),
                    ) ==> reported(field_checks(x, old(ctx).syntax, old(ctx).stack@), added(*old(ctx), *ctx))) by {
                    if let ast::MessageItem::Field(ast::MessageField::Field(x)) = self.items@[k] {
                        let w = field_checks(x, old(ctx).syntax, old(ctx).stack@);
                        if k < i {
                            lemma_reported_grow(w, added(*old(ctx), c0), added(c0, *ctx));
                        } else {
                            assert(reported(w, added(c0, *ctx)));
                            assert forall|t: int| 0 <= t < w.len() implies added(*old(ctx), *ctx).contains(#[trigger] w[t]) by {
                                let u = choose|u: int| 0 <= u < added(c0, *ctx).len() && added(c0, *ctx)[u] == w[t];
                                assert(added(*old(ctx), *ctx)[added(*old(ctx), c0).len() + u] == w[t]);
                            }
                        }
                    }
                }
            }
            i = i + 1;
        }
        proof {
            assert(self.items@.take(i as int) =~= self.items@);
        }
        let ghost c_items = *ctx;
        let ghost o_items = oneof_decl@;
        let ghost before = field@;
        if field.len() <= 2147483647 && oneof_decl.len() <= 2147483647 - field.len() {
            add_synthetic_oneofs(&mut field, &mut oneof_decl);
            proof {
                lemma_synthetic_count_mono(before, 0, before.len() as int);
            }
        }
        proof {
            assert(oneof_decl@.len() >= o_items.len());
            assert(oneof_decl@.subrange(0, o_items.len() as int) =~= o_items);
        }
        let mut extension_range: Vec<ExtensionRange> = Vec::new();
        let mut j: usize = 0;
        proof {
            lemma_grow_same(c_items, c_items);
            assert(ctx.errors@ =~= c_items.errors@ + extensions_diags(self.extensions@.take(0)));
            assert(self.extensions@.take(0) =~= Seq::<ast::Extensions>::empty());
            assert(extension_range@.map_values(|e: ExtensionRange| (e.start, e.end)) =~= Seq::<(Option<i32>, Option<i32>)>::empty());
        }
        while j < self.extensions.len()
            invariant
                j <= self.extensions@.len(),
                same_scope(*old(ctx), *ctx),
                errors_grow(*old(ctx), *ctx),
                extension_range@.map_values(|e: ExtensionRange| (e.start, e.end)) == extension_bounds(self.extensions@.take(j as int)),
                errors_grow(c_items, *ctx),
                ctx.errors@ == c_items.errors@ + extensions_diags(self.extensions@.take(j as int)),
                extension_range@.len() == extension_options(self.extensions@.take(j as int)).len(),
                forall|k: int|
                    0 <= k < extension_range@.len() ==> records_option(
                        (#[trigger] extension_range@[k]).options,
                        extension_options(self.extensions@.take(j as int))[k],
                    ),
            decreases self.extensions@.len() - j,
        {
            let ghost c0 = *ctx;
            let ghost r0 = extension_range@;
            self.extensions[j].to_extension_ranges(ctx, &mut extension_range);
            proof {
                lemma_grow_trans(*old(ctx), c0, *ctx);
                lemma_grow_trans(c_items, c0, *ctx);
                assert(self.extensions@.take(j + 1).drop_last() =~= self.extensions@.take(j as int));
                assert(ctx.errors@ =~= c_items.errors@ + extensions_diags(self.extensions@.take(j + 1)));
                let eo1 = extension_options(self.extensions@.take(j + 1));
                let eo0 = extension_options(self.extensions@.take(j as int));
                let ex = self.extensions@[j as int];
                assert(eo1 =~= eo0 + Seq::new(ex.ranges@.len(), |k: int| ex.options@));
                assert forall|k: int| 0 <= k < extension_range@.len() implies records_option(
                    (#[trigger] extension_range@[k]).options, eo1[k]) by {
                    if k < r0.len() {
                        assert(extension_range@[k] == r0[k]);
                    } else {
                        let t = k - r0.len();
                        assert(extension_range@[r0.len() + t] == extension_range@[k]);
                    }
                }
                let e = self.extensions@[j as int];
                assert(self.extensions@.take(j + 1).drop_last() =~= self.extensions@.take(j as int));
                assert(extension_range@ =~= r0 + extension_range@.subrange(r0.len() as int, extension_range@.len() as int));
                assert forall|k: int| 0 <= k < e.ranges@.len() implies extension_range@[r0.len() + k].start == field_number(e.ranges@[k].start)
                    && extension_range@[r0.len() + k].end == reserved_end(e.ranges@[k]) by {
                    let x = extension_range@[r0.len() + k];
                }
                assert(extension_range@.subrange(r0.len() as int, extension_range@.len() as int).map_values(|x: ExtensionRange| (x.start, x.end))
                    =~= e.ranges@.map_values(|r: ast::ReservedRange| (field_number(r.start), reserved_end(r))));
                assert(extension_range@.map_values(|x: ExtensionRange| (x.start, x.end)) =~= r0.map_values(|x: ExtensionRange| (x.start, x.end))
                    + extension_range@.subrange(r0.len() as int, extension_range@.len() as int).map_values(|x: ExtensionRange| (x.start, x.end)));
            }
            j = j + 1;
        }
        proof {
            assert(self.extensions@.take(j as int) =~= self.extensions@);
        }
        let options = to_options(&self.options);
        let ghost c1 = *ctx;
        let reserved_range = collect_reserved_ranges(&self.reserved, ctx);
        proof {
            lemma_grow_trans(*old(ctx), c1, *ctx);
            lemma_grow_trans(c_items, c1, *ctx);
            assert(self.extensions@.take(self.extensions@.len() as int) =~= self.extensions@);
            let x = extensions_diags(self.extensions@);
            let y = reserved_diags(self.reserved@);
            assert(ctx.errors@ =~= c_items.errors@ + x + y);
            assert(added(*old(ctx), *ctx) =~= added(*old(ctx), c_items) + x + y);
            lemma_views_add(added(*old(ctx), c_items), x);
            lemma_views_add(added(*old(ctx), c_items) + x, y);
            assert(self.items@.take(self.items@.len() as int) =~= self.items@);
            assert(oneof_decl@.subrange(0, o_items.len() as int) == o_items);
            assert(o_items.len() == declared_oneofs(self.items@).len());
            assert(oneofs_declared(o_items, declared_oneofs(self.items@)));
            assert forall|j: int| 0 <= j < declared_oneofs(self.items@).len() implies (#[trigger] oneof_decl@[j]).name == Some(declared_oneofs(self.items@)[j].name.value)
                && records_option(oneof_decl@[j].options, declared_oneofs(self.items@)[j].options@) by {
                assert(oneof_decl@.subrange(0, o_items.len() as int)[j] == oneof_decl@[j]);
                assert(o_items[j].name == Some(declared_oneofs(self.items@)[j].name.value));
            }
        }
        let reserved_name = collect_reserved_names(&self.reserved);
        let r = DescriptorProto {
            name: None,
            field,
            extension,
            nested_type,
            enum_type,
            extension_range,
            oneof_decl,
            options,
            reserved_range,
            reserved_name,
        };
        proof {
            assert(body_fields_ok(before, self.items@, self.items@.len() as int, env_of(*old(ctx))));
            lemma_grow_trans(*old(ctx), c_items, *ctx);
            assert forall|i: int|
                0 <= i < self.items@.len() implies (#[trigger] self.items@[i] matches ast::MessageItem::Field(
                    ast::MessageField::Field(x),
                ) ==> reported(field_checks(x, old(ctx).syntax, old(ctx).stack@), added(*old(ctx), *ctx))) by {
                if let ast::MessageItem::Field(ast::MessageField::Field(x)) = self.items@[i] {
                    lemma_reported_grow(field_checks(x, old(ctx).syntax, old(ctx).stack@), added(*old(ctx), c_items), added(c_items, *ctx));
                }
            }
        }
        r
    }
}

impl ast::Message {
    /// The descriptor of a message, checked in its own scope.
    pub fn to_message_descriptor(&self, ctx: &mut Context) -> (r: DescriptorProto)
        ensures
            same_scope(*old(ctx), *final(ctx)),
            errors_grow(*old(ctx), *final(ctx)),
            r.name == Some(self.name.value),
            exists|full_name: String|
                full_name@ == join(scope_of(old(ctx).stack@), self.name.value@) && #[trigger] body_emitted(
                    r,
                    self.body,
                    (
                        old(ctx).syntax,
                        old(ctx).stack@.push(Definition::Message { full_name }),
                        old(ctx).names@,
                        old(ctx).resolve_names,
                    ),
                ),
            views(added(*old(ctx), *final(ctx))) == message_diags(denv(env_of(*old(ctx))), *self),
        decreases self,
    {
        let ghost c0 = *ctx;
        let full_name = ctx.full_name(self.name.value.as_str());
        let ghost fname = full_name;
        ctx.enter(Definition::Message { full_name });
        let ghost env_m = env_of(*ctx);
        let ghost c_in = *ctx;
        let mut d = self.body.to_message_descriptor(ctx);
        let ghost c_b = *ctx;
        ctx.exit();
        proof {
            assert(c_in.stack@.last() == Definition::Message { full_name: fname });
            assert(denv(env_of(c_in)) == (c0.syntax, join(scope_of(c0.stack@), self.name.value@), false, false, c0.names@, c0.resolve_names));
            assert(added(c0, *ctx) =~= added(c_in, c_b));
        }
        let ghost body_desc = d;
        proof {
            assert(c0.stack@.push(Definition::Message { full_name }).drop_last() =~= c0.stack@);
        }
        d.name = Some(self.name.value.clone());
        proof {
            assert(d.field == body_desc.field && d.oneof_decl == body_desc.oneof_decl);
            assert(body_emitted(d, self.body, env_m));
            assert(env_m == (c0.syntax, c0.stack@.push(Definition::Message { full_name: fname }), c0.names@, c0.resolve_names));
        }
        d
    }
}

impl ast::EnumValue {
    pub fn to_enum_value_descriptor(&self, ctx: &mut Context) -> (r: EnumValueDescriptorProto)
        ensures
            same_scope(*old(ctx), *final(ctx)),
            final(ctx).errors@ == old(ctx).errors@ + enum_number_error(enum_number(self.value), self.value.span),
            r.name == Some(self.name.value),
            r.number == enum_number(self.value),
            records_option(r.options, self.options@),
    {
        let name = Some(self.name.value.clone());
        let number = self.value.to_enum_number(ctx);
        let options = to_options(&self.options);
        EnumValueDescriptorProto { name, number, options }
    }
}

impl ast::Enum {
    /// The descriptor of an enum: its values with their numbers, reserved
    /// ranges (both ends inclusive) and names, and options.
    pub fn to_enum_descriptor(&self, ctx: &mut Context) -> (r: EnumDescriptorProto)
        ensures
            same_scope(*old(ctx), *final(ctx)),
            errors_grow(*old(ctx), *final(ctx)),
            final(ctx).errors@ == old(ctx).errors@ + enum_diags(*self),
            r.name == Some(self.name.value),
            r.value@.len() == self.values@.len(),
            forall|i: int|
                0 <= i < self.values@.len() ==> (#[trigger] r.value@[i]).name == Some(
                    self.values@[i].name.value,
                ) && r.value@[i].number == enum_number(self.values@[i].value) && records_option(
                    r.value@[i].options,
                    self.values@[i].options@,
                ),
            records_option(r.options, self.options@),
            r.reserved_range@ == enum_reserved_ranges_of(self.reserved@),
            r.reserved_name@ == reserved_names_of(self.reserved@),
            enum_emitted(r, *self),
    {
        let ghost c0 = *ctx;
        ctx.enter(Definition::Enum);
        let ghost c1 = *ctx;
        let name = Some(self.name.value.clone());
        let mut value: Vec<EnumValueDescriptorProto> = Vec::new();
        let mut i: usize = 0;
        proof {
            assert(self.values@.take(0) =~= Seq::<ast::EnumValue>::empty());
            assert(ctx.errors@ =~= c1.errors@ + values_errors(self.values@.take(0)));
            lemma_added(ctx.errors@, ctx.errors@, Seq::empty());
        }
        while i < self.values.len()
            invariant
                i <= self.values@.len(),
                same_scope(c1, *ctx),
                errors_grow(c1, *ctx),
                ctx.errors@ == c1.errors@ + values_errors(self.values@.take(i as int)),
                value@.len() == i,
                forall|k: int|
                    0 <= k < i ==> (#[trigger] value@[k]).name == Some(self.values@[k].name.value)
                        && value@[k].number == enum_number(self.values@[k].value) && records_option(
                        value@[k].options,
                        self.values@[k].options@,
                    ),
            decreases self.values@.len() - i,
        {
            let ghost c2 = *ctx;
            let v = self.values[i].to_enum_value_descriptor(ctx);
            value.push(v);
            proof {
                lemma_added(c2.errors@, ctx.errors@, enum_number_error(enum_number(self.values@[i as int].value), self.values@[i as int].value.span));
                lemma_grow_trans(c1, c2, *ctx);
                assert(self.values@.take(i + 1).drop_last() =~= self.values@.take(i as int));
                assert(ctx.errors@ =~= c1.errors@ + values_errors(self.values@.take(i + 1)));
            }
            i = i + 1;
        }
        proof {
            assert(self.values@.take(i as int) =~= self.values@);
        }
        let options = to_options(&self.options);
        let ghost c3 = *ctx;
        let reserved_range = collect_enum_reserved_ranges(&self.reserved, ctx);
        let reserved_name = collect_reserved_names(&self.reserved);
        ctx.exit();
        proof {
            lemma_grow_trans(c1, c3, *ctx);
            assert(c1.stack@.drop_last() =~= c0.stack@);
            lemma_grow_trans(c0, c1, *ctx);
            assert(ctx.errors@ =~= c0.errors@ + enum_diags(*self));
        }
        EnumDescriptorProto { name, value, options, reserved_range, reserved_name }
    }
}

/// The diagnostic an input or output type draws when it names something
/// other than a message.
pub open spec fn method_type_error_ok(ctx: Context, t: ast::TypeName, kind: &'static str, added: Seq<CheckError>) -> bool {
    if bad_message_kind(resolved_kind(ctx, type_name_text(t))) {
        added.len() == 1 && (added[0] matches CheckError::InvalidMethodTypeName { name, kind: k, span }
            && name@ == type_name_text(t) && k == kind && span == t.span)
    } else {
        lookup_error_ok(ctx, type_name_text(t), t.span, added)
    }
}

impl ast::Method {
    fn resolve_message_type(&self, t: &ast::TypeName, kind: &'static str, ctx: &mut Context) -> (r: String)
        ensures
            r@ == resolved_name(*old(ctx), type_name_text(*t)),
            same_scope(*old(ctx), *final(ctx)),
            errors_grow(*old(ctx), *final(ctx)),
            method_type_error_ok(*old(ctx), *t, kind, added(*old(ctx), *final(ctx))),
    {
        let ghost c0 = *ctx;
        let (name, k) = ctx.resolve_type_name(t);
        let bad = match k {
            None => false,
            Some(DefinitionKind::Message) => false,
            Some(DefinitionKind::Group) => false,
            Some(_) => true,
        };
        if bad {
            let ghost c1 = *ctx;
            ctx.errors.push(CheckError::InvalidMethodTypeName { name: t.to_text(), kind, span: t.span });
            proof {
                assert(ctx.errors@ =~= c1.errors@ + seq![ctx.errors@.last()]);
                lemma_added(c1.errors@, ctx.errors@, seq![ctx.errors@.last()]);
                lemma_grow_trans(c0, c1, *ctx);
            }
        }
        name
    }

    /// The descriptor of a method, its input and output resolved to
    /// messages.
    pub fn to_method_descriptor(&self, ctx: &mut Context) -> (r: MethodDescriptorProto)
        ensures
            same_scope(*old(ctx), *final(ctx)),
            errors_grow(*old(ctx), *final(ctx)),
            r.name == Some(self.name.value),
            string_view(r.input_type) == Some(resolved_name(*old(ctx), type_name_text(self.input_ty))),
            string_view(r.output_type) == Some(resolved_name(*old(ctx), type_name_text(self.output_ty))),
            r.client_streaming == Some(self.is_client_streaming),
            r.server_streaming == Some(self.is_server_streaming),
            records_option(r.options, self.options@),
            exists|a: Seq<CheckError>, b: Seq<CheckError>|
                method_type_error_ok(*old(ctx), self.input_ty, "input", a) && method_type_error_ok(
                    *old(ctx),
                    self.output_ty,
                    "output",
                    b,
                ) && #[trigger] added(*old(ctx), *final(ctx)) == a + b,
            views(added(*old(ctx), *final(ctx))) == method_diags(denv(env_of(*old(ctx))), *self),
    {
        let ghost c0 = *ctx;
        let name = Some(self.name.value.clone());
        let input_type = self.resolve_message_type(&self.input_ty, "input", ctx);
        let ghost c1 = *ctx;
        let output_type = self.resolve_message_type(&self.output_ty, "output", ctx);
        proof {
            lemma_grow_trans(c0, c1, *ctx);
            assert(method_type_error_ok(c0, self.input_ty, "input", added(c0, c1)));
            assert(method_type_error_ok(c0, self.output_ty, "output", added(c1, *ctx)));
            lemma_method_type_view(c0, self.input_ty, "input", added(c0, c1));
            lemma_method_type_view(c0, self.output_ty, "output", added(c1, *ctx));
            lemma_views_add(added(c0, c1), added(c1, *ctx));
        }
        let options = to_options(&self.options);
        MethodDescriptorProto {
            name,
            input_type: Some(input_type),
            output_type: Some(output_type),
            options,
            client_streaming: Some(self.is_client_streaming),
            server_streaming: Some(self.is_server_streaming),
        }
    }
}

/// Each method's input and output types are the references resolved in
/// `env`.
pub open spec fn methods_resolved(ds: Seq<MethodDescriptorProto>, ms: Seq<ast::Method>, env: Env) -> bool {
    forall|i: int|
        0 <= i < ds.len() && i < ms.len() ==> string_view((#[trigger] ds[i]).input_type) == Some(
            resolved_name_in(env, type_name_text(ms[i].input_ty)),
        ) && string_view(ds[i].output_type) == Some(resolved_name_in(env, type_name_text(ms[i].output_ty)))
}

impl ast::Service {
    /// The descriptor of a service; its methods are resolved in its scope.
    pub fn to_service_descriptor(&self, ctx: &mut Context) -> (r: ServiceDescriptorProto)
        ensures
            same_scope(*old(ctx), *final(ctx)),
            errors_grow(*old(ctx), *final(ctx)),
            r.name == Some(self.name.value),
            r.method@.len() == self.methods@.len(),
            forall|i: int|
                0 <= i < self.methods@.len() ==> (#[trigger] r.method@[i]).name == Some(
                    self.methods@[i].name.value,
                ) && r.method@[i].client_streaming == Some(self.methods@[i].is_client_streaming)
                    && r.method@[i].server_streaming == Some(self.methods@[i].is_server_streaming),
            records_option(r.options, self.options@),
            forall|i: int|
                0 <= i < self.methods@.len() ==> records_option(
                    (#[trigger] r.method@[i]).options,
                    self.methods@[i].options@,
                ),
            views(added(*old(ctx), *final(ctx))) == service_diags(denv(env_of(*old(ctx))), *self),
            service_emitted(r, *self),
            exists|full_name: String|
                full_name@ == join(scope_of(old(ctx).stack@), self.name.value@) && #[trigger] methods_resolved(
                    r.method@,
                    self.methods@,
                    (
                        old(ctx).syntax,
                        old(ctx).stack@.push(Definition::Service { full_name }),
                        old(ctx).names@,
                        old(ctx).resolve_names,
                    ),
                ),
    {
        let ghost c0 = *ctx;
        let name = Some(self.name.value.clone());
        let options = to_options(&self.options);
        let full_name = ctx.full_name(self.name.value.as_str());
        let ghost fname = full_name;
        ctx.enter(Definition::Service { full_name });
        let ghost c1 = *ctx;
        let mut method: Vec<MethodDescriptorProto> = Vec::new();
        let mut i: usize = 0;
        proof {
            lemma_added(ctx.errors@, ctx.errors@, Seq::empty());
            assert(views(added(c1, *ctx)) =~= Seq::<Diag>::empty());
        }
        while i < self.methods.len()
            invariant
                i <= self.methods@.len(),
                same_scope(c1, *ctx),
                errors_grow(c1, *ctx),
                method@.len() == i,
                forall|k: int|
                    0 <= k < i ==> (#[trigger] method@[k]).name == Some(self.methods@[k].name.value)
                        && method@[k].client_streaming == Some(self.methods@[k].is_client_streaming)
                        && method@[k].server_streaming == Some(self.methods@[k].is_server_streaming),
                methods_resolved(method@, self.methods@, env_of(c1)),
                forall|k: int| 0 <= k < i ==> records_option((#[trigger] method@[k]).options, self.methods@[k].options@),
                views(added(c1, *ctx)) == methods_diags(denv(env_of(c1)), self.methods@, i as int),
            decreases self.methods@.len() - i,
        {
            let ghost c2 = *ctx;
            let m = self.methods[i].to_method_descriptor(ctx);
            let ghost m_before = method@;
            method.push(m);
            proof {
                lemma_views_grow(c1, c2, *ctx);
                assert(env_of(c2) == env_of(c1));
                assert forall|k: int| 0 <= k < i + 1 implies records_option((#[trigger] method@[k]).options, self.methods@[k].options@) by {
                    if k < i {
                        assert(method@[k] == m_before[k]);
                    }
                }
                assert forall|k: int| 0 <= k < method@.len() && k < self.methods@.len() implies string_view((#[trigger] method@[k]).input_type) == Some(
                    resolved_name_in(env_of(c1), type_name_text(self.methods@[k].input_ty)),
                ) && string_view(method@[k].output_type) == Some(resolved_name_in(env_of(c1), type_name_text(self.methods@[k].output_ty))) by {
                    if k < i {
                        assert(method@[k] == m_before[k]);
                    }
                }
            }
            i = i + 1;
        }
        ctx.exit();
        proof {
            assert(c1.stack@.drop_last() =~= c0.stack@);
            lemma_grow_trans(c0, c1, *ctx);
            assert(env_of(c1) == (c0.syntax, c0.stack@.push(Definition::Service { full_name: fname }), c0.names@, c0.resolve_names));
            assert(denv(env_of(c1)) == (c0.syntax, join(scope_of(c0.stack@), self.name.value@), false, false, c0.names@, c0.resolve_names));
            lemma_grow_same(c0, c1);
            assert(added(c0, *ctx) =~= added(c1, *ctx));
        }
        ServiceDescriptorProto { name, method, options }
    }
}

/// How many of the file's items are messages (`kind` 0), enums (1),
/// services (2) or extends (3).
pub open spec fn count_items(items: Seq<ast::FileItem>, kind: int) -> int
    decreases items.len(),
{
    if items.len() == 0 {
        0
    } else {
        count_items(items.drop_last(), kind) + if (kind == 0 && items.last() is Message) || (kind
            == 1 && items.last() is Enum) || (kind == 2 && items.last() is Service) || (kind == 3
            && items.last() is Extend) {
            1int
        } else {
            0int
        }
    }
}

proof fn lemma_count_items_nonneg(items: Seq<ast::FileItem>, kind: int)
    ensures
        count_items(items, kind) >= 0,
    decreases items.len(),
{
    if items.len() > 0 {
        lemma_count_items_nonneg(items.drop_last(), kind);
    }
}

/// The `syntax` a descriptor records: only proto3 is written down.
pub open spec fn syntax_name(s: Syntax) -> Option<Seq<char>> {
    match s {
        Syntax::Proto2 => None,
        Syntax::Proto3 => Some("proto3"@),
    }
}

/// The positions of the imports of the given kind, in order.
pub open spec fn import_indices(imports: Seq<ast::Import>, kind: ast::ImportKind) -> Seq<i32>
    decreases imports.len(),
{
    if imports.len() == 0 {
        Seq::empty()
    } else {
        import_indices(imports.drop_last(), kind) + if imports.last().kind == Some(kind) {
            seq![(imports.len() - 1) as i32]
        } else {
            Seq::empty()
        }
    }
}

/// What the descriptor of `file` compiled under `name` records at file
/// level: name, package, imports, one entry per declared message, enum and
/// service, syntax and options. A file without extends has exactly its
/// messages and no extensions.
pub open spec fn file_descriptor_ok(d: FileDescriptorProto, file: ast::File, name: String) -> bool {
    &&& d.name == Some(name)
    &&& string_view(d.package) == match file.package {
        Some(p) => Some(p.value@),
        None => None,
    }
    &&& d.dependency@ == file.imports@.map_values(|i: ast::Import| i.value)
    &&& file.imports@.len() <= i32::MAX ==> d.public_dependency@ == import_indices(file.imports@, ast::ImportKind::Public)
    &&& file.imports@.len() <= i32::MAX ==> d.weak_dependency@ == import_indices(file.imports@, ast::ImportKind::Weak)
    &&& d.message_type@.len() >= count_items(file.items@, 0)
    &&& count_items(file.items@, 3) == 0 ==> d.message_type@.len() == count_items(file.items@, 0)
        && d.extension@.len() == 0
    &&& d.enum_type@.len() == count_items(file.items@, 1)
    &&& d.service@.len() == count_items(file.items@, 2)
    &&& string_view(d.syntax) == syntax_name(file.syntax)
    &&& records_option(d.options, file.options@)
}

/// Checks one file and emits its descriptor under `name`. With
/// `resolve_names` off, type references are recorded as written and never
/// looked up: that draft carries every declaration the file makes.
pub fn check_file(file: &ast::File, name: &String, names: NameMap, resolve_names: bool) -> (r: (
    FileDescriptorProto,
    Vec<CheckError>,
    NameMap,
))
    ensures
        file_descriptor_ok(r.0, *file, *name),
        r.2@ == names@,
        views(r.1@) == file_diags(*file, names@, resolve_names),
        r.0.enum_type@.len() == file_enums(file.items@).len(),
        forall|k: int| 0 <= k < r.0.enum_type@.len() ==> enum_emitted(#[trigger] r.0.enum_type@[k], file_enums(file.items@)[k]),
        file_messages_ok(r.0.message_type@, file.items@, file.items@.len() as int, file_env(*file, names@, resolve_names)),
        r.0.service@.len() == file_services(file.items@).len(),
        forall|k: int| 0 <= k < r.0.service@.len() ==> service_emitted(#[trigger] r.0.service@[k], file_services(file.items@)[k]),
{
    let mut ctx = Context::new(file.syntax, names, resolve_names);
    let package = match &file.package {
        Some(p) => {
            ctx.enter(Definition::Package { full_name: p.value.clone() });
            Some(p.value.clone())
        },
        None => None,
    };
    let mut dependency: Vec<String> = Vec::new();
    let mut public_dependency: Vec<i32> = Vec::new();
    let mut weak_dependency: Vec<i32> = Vec::new();
    let mut i: usize = 0;
    proof {
        assert(file.imports@.take(0) =~= Seq::<ast::Import>::empty());
        assert(file.imports@.take(0).map_values(|i: ast::Import| i.value) =~= Seq::<String>::empty());
    }
    while i < file.imports.len()
        invariant
            i <= file.imports@.len(),
            dependency@ == file.imports@.take(i as int).map_values(|i: ast::Import| i.value),
            file.imports@.len() <= i32::MAX ==> public_dependency@ == import_indices(file.imports@.take(i as int), ast::ImportKind::Public),
            file.imports@.len() <= i32::MAX ==> weak_dependency@ == import_indices(file.imports@.take(i as int), ast::ImportKind::Weak),
        decreases file.imports@.len() - i,
    {
        let import = &file.imports[i];
        proof {
            assert(file.imports@.take(i + 1).drop_last() =~= file.imports@.take(i as int));
            assert(file.imports@.take(i + 1).map_values(|i: ast::Import| i.value) =~= file.imports@.take(i as int).map_values(|i: ast::Import| i.value).push(import.value));
        }
        dependency.push(import.value.clone());
        if i <= 2147483647 {
            match import.kind {
                Some(ast::ImportKind::Public) => public_dependency.push(i as i32),
                Some(ast::ImportKind::Weak) => weak_dependency.push(i as i32),
                None => {},
            }
        }
        proof {
            if file.imports@.len() <= i32::MAX {
                assert(public_dependency@ =~= import_indices(file.imports@.take(i + 1), ast::ImportKind::Public));
                assert(weak_dependency@ =~= import_indices(file.imports@.take(i + 1), ast::ImportKind::Weak));
            }
        }
        i = i + 1;
    }
    proof {
        assert(file.imports@.take(i as int) =~= file.imports@);
    }
    let mut message_type: Vec<DescriptorProto> = Vec::new();
    let mut enum_type: Vec<EnumDescriptorProto> = Vec::new();
    let mut service: Vec<ServiceDescriptorProto> = Vec::new();
    let mut extension: Vec<FieldDescriptorProto> = Vec::new();
    let ghost stack0 = ctx.stack@;
    let ghost env0 = env_of(ctx);
    proof {
        assert(views(ctx.errors@) =~= Seq::<Diag>::empty());
        assert(file.items@.take(0) =~= Seq::<ast::FileItem>::empty());
        reveal(messages_before);
        assert(messages_before(file.items@, 0) == 0);
        match &file.package {
            Some(p) => {
                assert(ctx.stack@ =~= seq![Definition::Package { full_name: p.value }]);
            },
            None => {
                assert(ctx.stack@ =~= Seq::<Definition>::empty());
            },
        }
    }
    let mut j: usize = 0;
    assert(file.items@.take(0) =~= Seq::<ast::FileItem>::empty());
    while j < file.items.len()
        invariant
            j <= file.items@.len(),
            ctx.stack@ == stack0,
            ctx.names@ == names@,
            message_type@.len() >= count_items(file.items@.take(j as int), 0),
            count_items(file.items@.take(j as int), 3) == 0 ==> message_type@.len() == count_items(file.items@.take(j as int), 0)
                && extension@.len() == 0,
            enum_type@.len() == count_items(file.items@.take(j as int), 1),
            service@.len() == count_items(file.items@.take(j as int), 2),
            ctx.syntax == file.syntax,
            ctx.resolve_names == resolve_names,
            denv(env_of(ctx)) == denv(env0),
            env_of(ctx) == env0,
            env0 == file_env(*file, names@, resolve_names),
            file_messages_ok(message_type@, file.items@, j as int, env0),
            views(ctx.errors@) == file_items_diags(denv(env0), file.items@, j as int),
            enum_type@.len() == file_enums(file.items@.take(j as int)).len(),
            forall|k: int| 0 <= k < enum_type@.len() ==> enum_emitted(#[trigger] enum_type@[k], file_enums(file.items@.take(j as int))[k]),
            service@.len() == file_services(file.items@.take(j as int)).len(),
            forall|k: int| 0 <= k < service@.len() ==> service_emitted(#[trigger] service@[k], file_services(file.items@.take(j as int))[k]),
        decreases file.items@.len() - j,
    {
        assert(file.items@.take(j + 1).drop_last() =~= file.items@.take(j as int));
        proof {
            lemma_count_items_nonneg(file.items@.take(j as int), 3);
        }
        let ghost c0 = ctx;
        let ghost e0 = enum_type@;
        let ghost s0 = service@;
        let ghost mt0 = message_type@;
        match &file.items[j] {
            ast::FileItem::Message(m) => {
                let d = m.to_message_descriptor(&mut ctx);
                message_type.push(d);
            },
            ast::FileItem::Enum(e) => {
                let d = e.to_enum_descriptor(&mut ctx);
                enum_type.push(d);
                proof {
                    lemma_added(c0.errors@, ctx.errors@, enum_diags(*e));
                }
            },
            ast::FileItem::Extend(e) => {
                e.to_field_descriptors(&mut ctx, &mut message_type, &mut extension);
            },
            ast::FileItem::Service(s) => {
                let d = s.to_service_descriptor(&mut ctx);
                service.push(d);
            },
        }
        proof {
            let it = file.items@[j as int];
            assert(ctx.errors@ =~= c0.errors@ + added(c0, ctx));
            lemma_views_add(c0.errors@, added(c0, ctx));
            assert(views(added(c0, ctx)) == file_item_diags(denv(env0), it));
            assert(file.items@.take(j + 1).last() == it);
            lemma_messages_before(file.items@, j as int, j as int);
            let lo = messages_before(file.items@, j as int);
            let hi = messages_before(file.items@, j + 1);
            assert(message_type@.len() >= mt0.len() && message_type@.subrange(0, mt0.len() as int) =~= mt0) by {
                match it {
                    ast::FileItem::Message(_) => {
                        assert(message_type@.drop_last() == mt0);
                    },
                    _ => {},
                }
            }
            assert(file_item_messages_ok(message_type@.subrange(lo, hi), it, env0)) by {
                reveal(file_item_messages_ok);
                assert(message_type@.subrange(lo, hi) =~= message_type@.subrange(mt0.len() as int, message_type@.len() as int));
                match it {
                    ast::FileItem::Message(m) => {
                        assert(message_type@.subrange(lo, hi) =~= seq![message_type@.last()]);
                    },
                    ast::FileItem::Extend(_) => {},
                    _ => {
                        assert(message_type@ == mt0);
                    },
                }
            }
            lemma_file_messages_step(mt0, message_type@, file.items@, j as int, env0);
            assert forall|k: int| 0 <= k < enum_type@.len() implies enum_emitted(#[trigger] enum_type@[k], file_enums(file.items@.take(j + 1))[k]) by {
                if k < e0.len() {
                    assert(enum_type@[k] == e0[k]);
                    assert(file_enums(file.items@.take(j + 1))[k] == file_enums(file.items@.take(j as int))[k]);
                }
            }
            assert forall|k: int| 0 <= k < service@.len() implies service_emitted(#[trigger] service@[k], file_services(file.items@.take(j + 1))[k]) by {
                if k < s0.len() {
                    assert(service@[k] == s0[k]);
                    assert(file_services(file.items@.take(j + 1))[k] == file_services(file.items@.take(j as int))[k]);
                }
            }
        }
        j = j + 1;
    }
    assert(file.items@.take(j as int) =~= file.items@);
    let syntax = match file.syntax {
        Syntax::Proto2 => None,
        Syntax::Proto3 => Some(String::from_str("proto3")),
    };
    let options = to_options(&file.options);
    let descriptor = FileDescriptorProto {
        name: Some(name.clone()),
        package,
        dependency,
        public_dependency,
        weak_dependency,
        message_type,
        enum_type,
        service,
        extension,
        options,
        syntax,
    };
    (descriptor, ctx.errors, ctx.names)
}

/// The diagnostics of a compiled file: its duplicate names, then what the
/// checker reported.
pub open spec fn diagnostics_of(duplicates: Seq<DuplicateNameError>, checked: Seq<CheckError>) -> Seq<CheckError> {
    duplicates.map_values(|e: DuplicateNameError| CheckError::DuplicateName(e)) + checked
}

/// Compiles one file against the files it imports. A draft descriptor,
/// emitted without lookups, gives the file's declarations; the first pass
/// builds the name map from them and from the imports; the checker then
/// emits the descriptor with every reference resolved. The map returned,
/// for the files that import this one, is built from that descriptor, and
/// the diagnostics are its duplicates followed by the checker's.
pub fn compile_file(file: &ast::File, name: &String, file_map: &ParsedFileMap) -> (r: (
    FileDescriptorProto,
    NameMap,
    Vec<CheckError>,
))
    ensures
        file_descriptor_ok(r.0, *file, *name),
        covers(r.1@, file_decls(r.0)),
        r.2@.len() == 0 ==> agrees(r.1@, file_decls(r.0)),
        forall|j: int, k: Seq<char>|
            #[trigger] imported_public(r.0, *file_map, j, k) ==> r.1@.contains_key(k),
        r.0.dependency@.len() == 0 ==> forall|k: Seq<char>|
            #[trigger] r.1@.contains_key(k) ==> declares(file_decls(r.0), k),
        exists|duplicates: Seq<DuplicateNameError>, checked: Seq<CheckError>, names: Map<Seq<char>, Entry>|
            #![trigger diagnostics_of(duplicates, checked), file_diags(*file, names, true)]
            r.2@ == diagnostics_of(duplicates, checked) && views(checked) == file_diags(*file, names, true) && (
            r.0.dependency@.len() == 0 && distinct_decls(file_decls(r.0)) ==> duplicates.len() == 0),
{
    let (draft, _, _) = check_file(file, name, NameMap::new(), false);
    let (names, _) = NameMap::from_proto(&draft, file_map);
    let ghost used = names@;
    let (descriptor, mut check_errors, _) = check_file(file, name, names, true);
    let (names, duplicates) = NameMap::from_proto(&descriptor, file_map);
    let mut errors: Vec<CheckError> = Vec::new();
    let ghost all = duplicates@;
    let ghost checked = check_errors@;
    let mut duplicates = duplicates;
    let mut taken: usize = 0;
    let total = duplicates.len();
    while duplicates.len() > 0
        invariant
            total == all.len(),
            taken + duplicates@.len() == all.len(),
            duplicates@ == all.subrange(taken as int, all.len() as int),
            errors@ == all.take(taken as int).map_values(|e: DuplicateNameError| CheckError::DuplicateName(e)),
        decreases duplicates@.len(),
    {
        let e = duplicates.remove(0);
        proof {
            assert(e == all[taken as int]);
            assert(all.take(taken + 1).map_values(|e: DuplicateNameError| CheckError::DuplicateName(e)) =~= all.take(
                taken as int,
            ).map_values(|e: DuplicateNameError| CheckError::DuplicateName(e)).push(CheckError::DuplicateName(e)));
        }
        errors.push(CheckError::DuplicateName(e));
        taken = taken + 1;
        proof {
            assert(duplicates@ =~= all.subrange(taken as int, all.len() as int));
        }
    }
    proof {
        assert(all.take(taken as int) =~= all);
    }
    errors.append(&mut check_errors);
    proof {
        assert(errors@ == diagnostics_of(all, checked));
        assert(views(checked) == file_diags(*file, used, true));
    }
    (descriptor, names, errors)
}

/// What decides the diagnostics of a declaration: the syntax, the current
/// scope, whether it stands in a oneof or in an extend, the names, and
/// whether lookups are made.
pub type DEnv = (Syntax, Seq<char>, bool, bool, Map<Seq<char>, Entry>, bool);

pub open spec fn denv(env: Env) -> DEnv {
    (env.0, scope_of(env.1), in_oneof_spec(env.1), in_extend_spec(env.1), env.2, env.3)
}

/// The same place with the oneof and extend flags set as given.
pub open spec fn with_flags(d: DEnv, in_oneof: bool, in_extend: bool) -> DEnv {
    (d.0, d.1, in_oneof, in_extend, d.4, d.5)
}

pub open spec fn err_view(e: CheckError) -> Diag {
    match e {
        CheckError::TypeNameNotFound { name, span } => Diag::NotFound { name: name@, span },
        CheckError::InvalidMessageFieldTypeName { name, span } => Diag::NotAType { name: name@, span },
        CheckError::InvalidExtendeeTypeName { name, span } => Diag::NotAnExtendee { name: name@, span },
        CheckError::InvalidMethodTypeName { name, kind, span } => Diag::NotAMethodType { name: name@, kind, span },
        _ => Diag::Plain(e),
    }
}

/// The diagnostics `s` as values.
pub open spec fn views(s: Seq<CheckError>) -> Seq<Diag> {
    s.map_values(|e: CheckError| err_view(e))
}

pub open spec fn plain(s: Seq<CheckError>) -> Seq<Diag> {
    s.map_values(|e: CheckError| Diag::Plain(e))
}

pub open spec fn d_lookup(d: DEnv, text: Seq<char>) -> Option<(Seq<char>, DefinitionKind)> {
    if d.5 {
        resolve_spec(d.4, d.1, text)
    } else {
        None
    }
}

pub open spec fn d_kind(d: DEnv, text: Seq<char>) -> Option<DefinitionKind> {
    match d_lookup(d, text) {
        Some((_, k)) => Some(k),
        None => None,
    }
}

/// A lookup that finds nothing is reported.
pub open spec fn lookup_diags(d: DEnv, text: Seq<char>, span: Span) -> Seq<Diag> {
    if d.5 && resolve_spec(d.4, d.1, text) is None {
        seq![Diag::NotFound { name: text, span }]
    } else {
        Seq::empty()
    }
}

pub open spec fn d_ty_type(d: DEnv, ty: ast::Ty) -> Option<Type> {
    match ty {
        ast::Ty::Named(t) => named_type(d_kind(d, type_name_text(t))),
        _ => scalar_type(ty),
    }
}

/// The diagnostics of a field type: a failed lookup, or a name that is not
/// a type.
pub open spec fn type_diags(d: DEnv, ty: ast::Ty) -> Seq<Diag> {
    match ty {
        ast::Ty::Named(t) => if bad_field_kind(d_kind(d, type_name_text(t))) {
            seq![Diag::NotAType { name: type_name_text(t), span: t.span }]
        } else {
            lookup_diags(d, type_name_text(t), t.span)
        },
        _ => Seq::empty(),
    }
}

pub open spec fn d_label(d: DEnv, label: Option<ast::FieldLabel>, span: Span) -> Seq<CheckError> {
    opt_seq(label_error_in(d.0, d.2, d.3, label, span))
}

pub open spec fn field_diags(d: DEnv, f: ast::Field) -> Seq<Diag> {
    plain(number_error(field_number(f.number), f.number.span)) + type_diags(d, f.ty) + plain(
        d_label(d, f.label, f.span),
    ) + plain(
        default_error(default_of(f.options@) is Some, d_ty_type(d, f.ty) == Some(Type::Message), "message", f.span),
    )
}

pub open spec fn map_diags(d: DEnv, m: ast::MapField) -> Seq<Diag> {
    plain(number_error(field_number(m.number), m.number.span)) + type_diags(d, m.ty) + lookup_diags(
        d,
        entry_name(m.name.value@),
        m.name.span,
    ) + plain(
        (if m.label is Some {
            seq![CheckError::MapFieldWithLabel { span: m.span }]
        } else {
            Seq::empty()
        }) + default_error(default_of(m.options@) is Some, true, "map", m.span),
    )
}

/// A group's own checks: its number, then proto3's ban or its label, then
/// a default it may not have.
pub open spec fn group_checks(d: DEnv, g: ast::Group) -> Seq<CheckError> {
    number_error(field_number(g.number), g.number.span) + (if d.0 == Syntax::Proto3 {
        seq![CheckError::Proto3GroupField { span: g.span }]
    } else {
        d_label(d, g.label, g.span)
    }) + default_error(default_of(g.options@) is Some, true, "group", g.span)
}

pub open spec fn group_diags(d: DEnv, g: ast::Group) -> Seq<Diag>
    decreases g,
{
    plain(group_checks(d, g)) + body_diags(with_flags(d, false, false), g.body) + lookup_diags(
        d,
        g.name.value@,
        g.name.span,
    )
}

/// The diagnostic a map or a oneof draws where it may not stand.
pub open spec fn rejected_diag(d: DEnv, f: ast::MessageField) -> CheckError {
    if d.2 {
        CheckError::InvalidOneofFieldKind { kind: kind_name_of(f), span: span_of(f) }
    } else {
        CheckError::InvalidExtendFieldKind { kind: kind_name_of(f), span: span_of(f) }
    }
}

pub open spec fn member_diags(d: DEnv, f: ast::MessageField) -> Seq<Diag>
    decreases f,
{
    if is_compound(f) && (d.2 || d.3) {
        seq![Diag::Plain(rejected_diag(d, f))]
    } else {
        match f {
            ast::MessageField::Field(x) => field_diags(d, x),
            ast::MessageField::Group(g) => group_diags(d, g),
            ast::MessageField::MapField(m) => map_diags(d, m),
            ast::MessageField::Oneof(o) => members_diags(with_flags(d, true, false), o.fields@, o.fields@.len() as int),
        }
    }
}

/// The diagnostics of the first `n` members, in order.
pub open spec fn members_diags(d: DEnv, fs: Seq<ast::MessageField>, n: int) -> Seq<Diag>
    decreases fs, n,
{
    if n <= 0 || n > fs.len() {
        Seq::empty()
    } else {
        members_diags(d, fs, n - 1) + member_diags(d, fs[n - 1])
    }
}

/// An extendee that names something other than a message is reported, and
/// one not found.
pub open spec fn extendee_diags(d: DEnv, t: ast::TypeName) -> Seq<Diag> {
    if bad_message_kind(d_kind(d, type_name_text(t))) {
        seq![Diag::NotAnExtendee { name: type_name_text(t), span: t.span }]
    } else {
        lookup_diags(d, type_name_text(t), t.span)
    }
}

pub open spec fn extend_diags(d: DEnv, e: ast::Extend) -> Seq<Diag>
    decreases e,
{
    extendee_diags(d, e.extendee) + members_diags(with_flags(d, false, true), e.fields@, e.fields@.len() as int)
}

pub open spec fn ranges_errors(rs: Seq<ast::ReservedRange>) -> Seq<CheckError>
    decreases rs.len(),
{
    if rs.len() == 0 {
        Seq::empty()
    } else {
        ranges_errors(rs.drop_last()) + reserved_errors(rs.last())
    }
}

pub open spec fn enum_ranges_errors(rs: Seq<ast::ReservedRange>) -> Seq<CheckError>
    decreases rs.len(),
{
    if rs.len() == 0 {
        Seq::empty()
    } else {
        enum_ranges_errors(rs.drop_last()) + enum_reserved_errors(rs.last())
    }
}

/// The diagnostics of reserved field ranges, in order.
pub open spec fn reserved_diags(rs: Seq<ast::Reserved>) -> Seq<CheckError>
    decreases rs.len(),
{
    if rs.len() == 0 {
        Seq::empty()
    } else {
        reserved_diags(rs.drop_last()) + match rs.last().kind {
            ast::ReservedKind::Ranges(v) => ranges_errors(v@),
            ast::ReservedKind::Names(_) => Seq::empty(),
        }
    }
}

pub open spec fn enum_reserved_diags(rs: Seq<ast::Reserved>) -> Seq<CheckError>
    decreases rs.len(),
{
    if rs.len() == 0 {
        Seq::empty()
    } else {
        enum_reserved_diags(rs.drop_last()) + match rs.last().kind {
            ast::ReservedKind::Ranges(v) => enum_ranges_errors(v@),
            ast::ReservedKind::Names(_) => Seq::empty(),
        }
    }
}

/// The diagnostics of extension ranges, in order.
pub open spec fn extensions_diags(exts: Seq<ast::Extensions>) -> Seq<CheckError>
    decreases exts.len(),
{
    if exts.len() == 0 {
        Seq::empty()
    } else {
        extensions_diags(exts.drop_last()) + ranges_errors(exts.last().ranges@)
    }
}

pub open spec fn values_errors(vs: Seq<ast::EnumValue>) -> Seq<CheckError>
    decreases vs.len(),
{
    if vs.len() == 0 {
        Seq::empty()
    } else {
        values_errors(vs.drop_last()) + enum_number_error(enum_number(vs.last().value), vs.last().value.span)
    }
}

/// An enum's diagnostics: each value's number, then its reserved ranges.
pub open spec fn enum_diags(e: ast::Enum) -> Seq<CheckError> {
    values_errors(e.values@) + enum_reserved_diags(e.reserved@)
}

pub open spec fn item_diags(d: DEnv, item: ast::MessageItem) -> Seq<Diag>
    decreases item,
{
    match item {
        ast::MessageItem::Field(f) => member_diags(d, f),
        ast::MessageItem::Enum(e) => views(enum_diags(e)),
        ast::MessageItem::Message(m) => message_diags(d, m),
        ast::MessageItem::Extend(e) => extend_diags(d, e),
    }
}

pub open spec fn message_diags(d: DEnv, m: ast::Message) -> Seq<Diag>
    decreases m,
{
    body_diags((d.0, join(d.1, m.name.value@), false, false, d.4, d.5), m.body)
}

/// The diagnostics of the first `n` items, in order.
pub open spec fn items_diags(d: DEnv, items: Seq<ast::MessageItem>, n: int) -> Seq<Diag>
    decreases items, n,
{
    if n <= 0 || n > items.len() {
        Seq::empty()
    } else {
        items_diags(d, items, n - 1) + item_diags(d, items[n - 1])
    }
}

/// A body's diagnostics: those of its items in order, then of its
/// extension ranges, then of its reserved ranges.
pub open spec fn body_diags(d: DEnv, b: ast::MessageBody) -> Seq<Diag>
    decreases b,
{
    items_diags(d, b.items@, b.items@.len() as int) + views(extensions_diags(b.extensions@)) + views(
        reserved_diags(b.reserved@),
    )
}

/// An input or output type that names something other than a message is
/// reported, and one not found.
pub open spec fn method_type_diags(d: DEnv, t: ast::TypeName, kind: &'static str) -> Seq<Diag> {
    if bad_message_kind(d_kind(d, type_name_text(t))) {
        seq![Diag::NotAMethodType { name: type_name_text(t), kind, span: t.span }]
    } else {
        lookup_diags(d, type_name_text(t), t.span)
    }
}

pub open spec fn method_diags(d: DEnv, m: ast::Method) -> Seq<Diag> {
    method_type_diags(d, m.input_ty, "input") + method_type_diags(d, m.output_ty, "output")
}

/// The diagnostics of the first `n` methods, in order.
pub open spec fn methods_diags(d: DEnv, ms: Seq<ast::Method>, n: int) -> Seq<Diag>
    decreases n,
{
    if n <= 0 || n > ms.len() {
        Seq::empty()
    } else {
        methods_diags(d, ms, n - 1) + method_diags(d, ms[n - 1])
    }
}

/// A service's diagnostics: its methods', resolved in its own scope.
pub open spec fn service_diags(d: DEnv, s: ast::Service) -> Seq<Diag> {
    methods_diags((d.0, join(d.1, s.name.value@), false, false, d.4, d.5), s.methods@, s.methods@.len() as int)
}

proof fn lemma_method_type_view(ctx: Context, t: ast::TypeName, kind: &'static str, a: Seq<CheckError>)
    requires
        method_type_error_ok(ctx, t, kind, a),
    ensures
        views(a) == method_type_diags(denv(env_of(ctx)), t, kind),
{
    if bad_message_kind(resolved_kind(ctx, type_name_text(t))) {
        assert(views(a) =~= method_type_diags(denv(env_of(ctx)), t, kind));
    } else {
        lemma_lookup_view(ctx, type_name_text(t), t.span, a);
    }
}

/// `r` is the descriptor of the enum `e`: its name, each value with its
/// number, reserved ranges (both ends inclusive), reserved names, options.
pub open spec fn enum_emitted(r: EnumDescriptorProto, e: ast::Enum) -> bool {
    &&& r.name == Some(e.name.value)
    &&& r.value@.len() == e.values@.len()
    &&& forall|i: int|
        0 <= i < e.values@.len() ==> (#[trigger] r.value@[i]).name == Some(e.values@[i].name.value)
            && r.value@[i].number == enum_number(e.values@[i].value) && records_option(
            r.value@[i].options,
            e.values@[i].options@,
        )
    &&& records_option(r.options, e.options@)
    &&& r.reserved_range@ == enum_reserved_ranges_of(e.reserved@)
    &&& r.reserved_name@ == reserved_names_of(e.reserved@)
}

/// `r` is the descriptor of the service `s`: its name, each method with its
/// name, streaming flags and options, and its own options.
pub open spec fn service_emitted(r: ServiceDescriptorProto, s: ast::Service) -> bool {
    &&& r.name == Some(s.name.value)
    &&& r.method@.len() == s.methods@.len()
    &&& forall|i: int|
        0 <= i < s.methods@.len() ==> (#[trigger] r.method@[i]).name == Some(s.methods@[i].name.value)
            && r.method@[i].client_streaming == Some(s.methods@[i].is_client_streaming)
            && r.method@[i].server_streaming == Some(s.methods@[i].is_server_streaming) && records_option(
            r.method@[i].options,
            s.methods@[i].options@,
        )
    &&& records_option(r.options, s.options@)
}

/// The enums a file declares, in order.
pub open spec fn file_enums(items: Seq<ast::FileItem>) -> Seq<ast::Enum>
    decreases items.len(),
{
    if items.len() == 0 {
        Seq::empty()
    } else {
        file_enums(items.drop_last()) + match items.last() {
            ast::FileItem::Enum(e) => seq![e],
            _ => Seq::empty(),
        }
    }
}

/// The services a file declares, in order.
pub open spec fn file_services(items: Seq<ast::FileItem>) -> Seq<ast::Service>
    decreases items.len(),
{
    if items.len() == 0 {
        Seq::empty()
    } else {
        file_services(items.drop_last()) + match items.last() {
            ast::FileItem::Service(x) => seq![x],
            _ => Seq::empty(),
        }
    }
}

pub open spec fn file_item_diags(d: DEnv, item: ast::FileItem) -> Seq<Diag> {
    match item {
        ast::FileItem::Message(m) => message_diags(d, m),
        ast::FileItem::Enum(e) => views(enum_diags(e)),
        ast::FileItem::Extend(e) => extend_diags(d, e),
        ast::FileItem::Service(x) => service_diags(d, x),
    }
}

pub open spec fn file_items_diags(d: DEnv, items: Seq<ast::FileItem>, n: int) -> Seq<Diag>
    decreases n,
{
    if n <= 0 || n > items.len() {
        Seq::empty()
    } else {
        file_items_diags(d, items, n - 1) + file_item_diags(d, items[n - 1])
    }
}

/// A file's diagnostics under a name map: those of its items in order,
/// checked in its package's scope.
pub open spec fn file_diags(file: ast::File, names: Map<Seq<char>, Entry>, resolve_names: bool) -> Seq<Diag> {
    let scope = match file.package {
        Some(p) => p.value@,
        None => Seq::empty(),
    };
    file_items_diags((file.syntax, scope, false, false, names, resolve_names), file.items@, file.items@.len() as int)
}

/// How many top-level messages an item of a file adds: its own, or the
/// groups of an extend.
pub open spec fn file_item_message_count(item: ast::FileItem) -> int {
    match item {
        ast::FileItem::Message(_) => 1,
        ast::FileItem::Extend(e) => member_groups(e.fields@).len() as int,
        _ => 0,
    }
}

#[verifier::opaque]
pub open spec fn messages_before(items: Seq<ast::FileItem>, n: int) -> int
    decreases n,
{
    if n <= 0 {
        0
    } else {
        messages_before(items, n - 1) + file_item_message_count(items[n - 1])
    }
}

proof fn lemma_messages_before(items: Seq<ast::FileItem>, a: int, b: int)
    requires
        0 <= a <= b,
    ensures
        0 <= messages_before(items, a) <= messages_before(items, b),
        messages_before(items, a + 1) == messages_before(items, a) + file_item_message_count(items[a]),
    decreases b - a, a,
{
    reveal(messages_before);
    if a < b {
        lemma_messages_before(items, a, b - 1);
    } else if a > 0 {
        lemma_messages_before(items, a - 1, a - 1);
    }
}

/// `ms` are the top-level messages `item` adds in `env`: a message's
/// descriptor, or the groups of an extend.
#[verifier::opaque]
pub open spec fn file_item_messages_ok(ms: Seq<DescriptorProto>, item: ast::FileItem, env: Env) -> bool {
    match item {
        ast::FileItem::Message(m) => ms.len() == 1 && ms[0].name == Some(m.name.value) && exists|full_name: String|
            full_name@ == join(scope_of(env.1), m.name.value@) && #[trigger] body_emitted(
                ms[0],
                m.body,
                (env.0, env.1.push(Definition::Message { full_name }), env.2, env.3),
            ),
        ast::FileItem::Extend(e) => extend_groups_emitted(ms, e, env),
        _ => ms.len() == 0,
    }
}

/// `ms` are, in order, the top-level messages the first `n` items of a file
/// add in `env`.
pub open spec fn file_messages_ok(ms: Seq<DescriptorProto>, items: Seq<ast::FileItem>, n: int, env: Env) -> bool {
    &&& ms.len() == messages_before(items, n)
    &&& forall|i: int|
        0 <= i < n ==> file_item_messages_ok(
            ms.subrange(messages_before(items, i), messages_before(items, i + 1)),
            #[trigger] items[i],
            env,
        )
}

#[verifier::spinoff_prover]
proof fn lemma_file_messages_step(
    old_ms: Seq<DescriptorProto>,
    new_ms: Seq<DescriptorProto>,
    items: Seq<ast::FileItem>,
    i: int,
    env: Env,
)
    requires
        0 <= i < items.len(),
        file_messages_ok(old_ms, items, i, env),
        new_ms.len() == messages_before(items, i + 1),
        new_ms.len() >= old_ms.len(),
        new_ms.subrange(0, old_ms.len() as int) == old_ms,
        file_item_messages_ok(new_ms.subrange(messages_before(items, i), messages_before(items, i + 1)), items[i], env),
    ensures
        file_messages_ok(new_ms, items, i + 1, env),
{
    assert forall|k: int| 0 <= k < i + 1 implies file_item_messages_ok(
        new_ms.subrange(messages_before(items, k), messages_before(items, k + 1)),
        #[trigger] items[k],
        env,
    ) by {
        if k < i {
            let lo = messages_before(items, k);
            let hi = messages_before(items, k + 1);
            lemma_messages_before(items, k, i);
            lemma_messages_before(items, k + 1, i);
            assert(file_item_messages_ok(old_ms.subrange(lo, hi), items[k], env));
            assert(new_ms.subrange(lo, hi) =~= old_ms.subrange(lo, hi));
        }
    }
}

/// The environment a file's top-level declarations are checked in: its
/// package as the only frame, if it has one.
pub open spec fn file_env(file: ast::File, names: Map<Seq<char>, Entry>, resolve_names: bool) -> Env {
    (
        file.syntax,
        match file.package {
            Some(p) => seq![Definition::Package { full_name: p.value }],
            None => Seq::empty(),
        },
        names,
        resolve_names,
    )
}

} // verus!
