use protox::ast::{
    Field, FieldLabel, File, FileItem, Ident, Int, KeyTy, MapField, Message, MessageBody,
    MessageField, MessageItem, Oneof, Span, Syntax, Ty,
};
use protox::case::{to_ascii_lowercase, to_camel_case, to_pascal_case};
use protox::comments::Comments;
use protox::ir::{FieldSource, MessageSource, OneofSource};

fn span(n: usize) -> Span {
    Span { start: n, end: n + 1 }
}

fn ident(s: &str) -> Ident {
    Ident { value: s.to_string(), span: span(3) }
}

fn num(n: u64) -> Int {
    Int { negative: false, value: n, span: span(0) }
}

fn field(label: Option<FieldLabel>, name: &str, n: u64) -> MessageField {
    MessageField::Field(Field { label, name: ident(name), ty: Ty::Int32, number: num(n), options: vec![], span: span(0) })
}

fn sample(syntax: Syntax) -> File {
    let map = MessageField::MapField(MapField {
        label: None, key_ty: KeyTy::Str, key_ty_span: span(1), ty: Ty::Bool, ty_span: span(2),
        name: ident("kv_pairs"), number: num(3), options: vec![], span: span(0),
    });
    let oneof = MessageField::Oneof(Oneof { name: ident("o"), options: vec![], fields: vec![field(None, "c", 4)], span: span(0) });
    let items = vec![
        MessageItem::Field(field(Some(FieldLabel::Optional), "a", 1)),
        MessageItem::Field(oneof),
        MessageItem::Field(map),
        MessageItem::Field(field(Some(FieldLabel::Optional), "b", 2)),
    ];
    let m = Message { name: ident("M"), body: MessageBody { items, extensions: vec![], options: vec![], reserved: vec![] }, span: span(0) };
    File { syntax, package: None, imports: vec![], options: vec![], items: vec![FileItem::Message(m)] }
}

#[test]
fn ir_orders_declared_oneofs_first() {
    let f = sample(Syntax::Proto3);
    let ir = protox::ir::File::build(&f);
    let m = &ir.messages[0];
    assert_eq!(m.oneofs.len(), 3);
    assert!(matches!(m.oneofs[0].ast, OneofSource::Oneof(o) if o.name.value == "o"));
    assert!(matches!(m.oneofs[1].ast, OneofSource::Field(f) if f.name.value == "a"));
    assert!(matches!(m.oneofs[2].ast, OneofSource::Field(f) if f.name.value == "b"));
    let a = &m.fields[0];
    assert!(a.is_synthetic_oneof);
    assert_eq!(a.oneof_index, Some(1));
    let c = &m.fields[1];
    assert!(!c.is_synthetic_oneof);
    assert_eq!(c.oneof_index, Some(0));
    let b = &m.fields[3];
    assert_eq!(b.oneof_index, Some(2));
}

#[test]
fn ir_map_entry_has_key_and_value() {
    let f = sample(Syntax::Proto3);
    let ir = protox::ir::File::build(&f);
    let entry = &ir.messages[0].messages[0];
    assert_eq!(entry.ast.name(), "KvPairsEntry");
    assert!(entry.ast.body().is_none());
    assert_eq!(entry.ast.name_span().start, 3);
    assert_eq!(entry.fields.len(), 2);
    assert!(matches!(entry.fields[0].ast, FieldSource::MapKey(KeyTy::Str, s) if s.start == 1));
    assert!(matches!(entry.fields[1].ast, FieldSource::MapValue(Ty::Bool, s) if s.start == 2));
    assert!(entry.messages.is_empty() && entry.oneofs.is_empty());
}

#[test]
fn ir_proto2_has_no_synthetic_oneofs() {
    let f = sample(Syntax::Proto2);
    let ir = protox::ir::File::build(&f);
    let m = &ir.messages[0];
    assert_eq!(m.oneofs.len(), 1);
    assert!(!m.fields[0].is_synthetic_oneof);
    assert_eq!(m.fields[0].oneof_index, None);
    assert!(matches!(m.ast, MessageSource::Message(_)));
    assert_eq!(m.ast.name(), "M");
    assert!(m.ast.body().is_some());
}

#[test]
fn case_conversions() {
    assert_eq!(to_camel_case("foo_bar_baz"), "fooBarBaz");
    assert_eq!(to_camel_case("_leading"), "Leading");
    assert_eq!(to_camel_case("plain"), "plain");
    assert_eq!(to_pascal_case("kv"), "Kv");
    assert_eq!(to_pascal_case("my_map_2x"), "MyMap2x");
    assert_eq!(to_ascii_lowercase("GroupName"), "groupname");
    assert_eq!(to_ascii_lowercase(""), "");
}

#[test]
fn comments_detach_and_take() {
    let mut c = Comments::new();
    c.comment("one".to_string());
    c.comment("two".to_string());
    c.comment("three".to_string());
    let (detached, current) = c.take();
    assert_eq!(detached, vec!["one".to_string(), "two".to_string()]);
    assert_eq!(current.as_deref(), Some("three"));
    let (detached, current) = c.take();
    assert!(detached.is_empty() && current.is_none());
    c.comment("x".to_string());
    c.reset();
    let (detached, current) = c.take();
    assert!(detached.is_empty() && current.is_none());
}

#[test]
fn file_records_source_and_descriptor() {
    let descriptor = protox::types::FileDescriptorProto {
        name: Some("a.proto".to_string()),
        package: None,
        dependency: vec![],
        public_dependency: vec![],
        weak_dependency: vec![],
        message_type: vec![],
        enum_type: vec![],
        service: vec![],
        extension: vec![],
        options: None,
        syntax: None,
    };
    let file = protox::file::File::from_source(Some("a.proto".to_string()), "message Foo { }", descriptor).unwrap();
    assert_eq!(file.path().map(|p| p.as_str()), Some("a.proto"));
    assert_eq!(file.source().map(|s| s.as_str()), Some("message Foo { }"));
    assert_eq!(file.to_file_descriptor_proto().name.as_deref(), Some("a.proto"));
}

#[test]
fn ir_skips_oneof_inside_oneof() {
    let inner = MessageField::Oneof(Oneof { name: ident("inner"), options: vec![], fields: vec![field(None, "x", 1)], span: span(0) });
    let outer = MessageField::Oneof(Oneof { name: ident("outer"), options: vec![], fields: vec![inner, field(None, "y", 2)], span: span(0) });
    let m = Message { name: ident("M"), body: MessageBody { items: vec![MessageItem::Field(outer)], extensions: vec![], options: vec![], reserved: vec![] }, span: span(0) };
    let f = File { syntax: Syntax::Proto3, package: None, imports: vec![], options: vec![], items: vec![FileItem::Message(m)] };
    let ir = protox::ir::File::build(&f);
    let m = &ir.messages[0];
    assert_eq!(m.oneofs.len(), 1);
    assert!(matches!(m.oneofs[0].ast, OneofSource::Oneof(o) if o.name.value == "outer"));
    assert_eq!(m.fields.len(), 1);
    assert_eq!(m.fields[0].oneof_index, Some(0));
}
