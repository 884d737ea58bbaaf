use protox::ast::{
    Enum, EnumValue, Extend, Extensions, Field, FieldLabel, File, FileItem, Group, Ident, Import,
    ImportKind, Int, KeyTy, MapField, Message, MessageBody, MessageField, MessageItem, Method,
    Oneof, OptionBody, Reserved, ReservedKind, ReservedRange, ReservedRangeEnd, Service, Span,
    Syntax, Ty, TypeName,
};
use protox::check::{check_file, compile_file, CheckError};
use protox::names::{DefinitionKind, NameMap, ParsedFile, ParsedFileMap};
use protox::types::{FileDescriptorProto, Label, Type};
use protox::MAX_MESSAGE_FIELD_NUMBER;

fn span(n: usize) -> Span {
    Span { start: n, end: n + 1 }
}

fn ident(s: &str) -> Ident {
    Ident { value: s.to_string(), span: span(0) }
}

fn num(n: u64) -> Int {
    Int { negative: false, value: n, span: span(0) }
}

fn named(s: &str) -> Ty {
    Ty::Named(reference(s))
}

fn reference(s: &str) -> TypeName {
    match s.strip_prefix('.') {
        Some(rest) => TypeName { leading_dot: true, name: rest.to_string(), span: span(7) },
        None => TypeName { leading_dot: false, name: s.to_string(), span: span(7) },
    }
}

fn field(label: Option<FieldLabel>, name: &str, ty: Ty, n: u64) -> MessageField {
    MessageField::Field(Field { label, name: ident(name), ty, number: num(n), options: vec![], span: span(n as usize) })
}

fn body(items: Vec<MessageItem>) -> MessageBody {
    MessageBody { items, extensions: vec![], options: vec![], reserved: vec![] }
}

fn message(name: &str, items: Vec<MessageItem>) -> Message {
    Message { name: ident(name), body: body(items), span: span(0) }
}

fn file(syntax: Syntax, package: Option<&str>, items: Vec<FileItem>) -> File {
    File { syntax, package: package.map(ident), imports: vec![], options: vec![], items }
}

fn compile(f: &File) -> (FileDescriptorProto, NameMap, Vec<CheckError>) {
    compile_file(f, &"test.proto".to_string(), &ParsedFileMap::new())
}

fn opt(s: &Option<String>) -> &str {
    s.as_deref().unwrap_or("")
}

#[test]
fn empty_file_has_no_messages() {
    let f = file(Syntax::Proto3, None, vec![]);
    let (d, _, errors) = compile(&f);
    assert_eq!(opt(&d.name), "test.proto");
    assert_eq!(opt(&d.syntax), "proto3");
    assert!(d.message_type.is_empty());
    assert!(d.enum_type.is_empty());
    assert!(d.service.is_empty());
    assert!(errors.is_empty());
}

#[test]
fn proto2_file_records_no_syntax() {
    let f = file(Syntax::Proto2, Some("a.b"), vec![]);
    let (d, names, errors) = compile(&f);
    assert!(d.syntax.is_none());
    assert_eq!(opt(&d.package), "a.b");
    assert!(errors.is_empty());
    assert!(matches!(names.get(&"a".to_string()), Some(DefinitionKind::Package)));
    assert!(matches!(names.get(&"a.b".to_string()), Some(DefinitionKind::Package)));
}

#[test]
fn generate_map_entry_message() {
    let map = MessageField::MapField(MapField {
        label: None,
        key_ty: KeyTy::Str,
        key_ty_span: span(1),
        ty: Ty::Int32,
        ty_span: span(2),
        name: ident("kv"),
        number: num(1),
        options: vec![],
        span: span(3),
    });
    let f = file(Syntax::Proto3, None, vec![FileItem::Message(message("M", vec![MessageItem::Field(map)]))]);
    let (d, _, errors) = compile(&f);
    assert!(errors.is_empty());
    let m = &d.message_type[0];
    assert_eq!(m.nested_type.len(), 1);
    let entry = &m.nested_type[0];
    assert_eq!(opt(&entry.name), "KvEntry");
    assert_eq!(entry.options.as_ref().unwrap().map_entry, Some(true));
    assert_eq!(entry.field.len(), 2);
    assert_eq!(opt(&entry.field[0].name), "key");
    assert_eq!(entry.field[0].number, Some(1));
    assert_eq!(entry.field[0].ty, Some(Type::Str));
    assert_eq!(opt(&entry.field[1].name), "value");
    assert_eq!(entry.field[1].number, Some(2));
    assert_eq!(entry.field[1].ty, Some(Type::Int32));
    let kv = &m.field[0];
    assert_eq!(opt(&kv.name), "kv");
    assert_eq!(kv.label, Some(Label::Repeated));
    assert_eq!(kv.ty, Some(Type::Message));
    assert_eq!(opt(&kv.type_ref), ".M.KvEntry");
    assert_eq!(opt(&kv.json_name), "kv");
}

#[test]
fn map_entry_name_is_pascal_case() {
    let map = MessageField::MapField(MapField {
        label: None,
        key_ty: KeyTy::Int64,
        key_ty_span: span(1),
        ty: named("M"),
        ty_span: span(2),
        name: ident("my_map_field"),
        number: num(4),
        options: vec![],
        span: span(3),
    });
    let f = file(Syntax::Proto3, Some("pkg"), vec![FileItem::Message(message("M", vec![MessageItem::Field(map)]))]);
    let (d, _, errors) = compile(&f);
    assert!(errors.is_empty());
    let m = &d.message_type[0];
    assert_eq!(opt(&m.nested_type[0].name), "MyMapFieldEntry");
    assert_eq!(opt(&m.field[0].type_ref), ".pkg.M.MyMapFieldEntry");
    assert_eq!(opt(&m.field[0].json_name), "myMapField");
    assert_eq!(m.nested_type[0].field[1].ty, Some(Type::Message));
    assert_eq!(opt(&m.nested_type[0].field[1].type_ref), ".pkg.M");
}

fn group_file(syntax: Syntax) -> File {
    let inner = field(Some(FieldLabel::Optional), "x", Ty::Int32, 1);
    let group = MessageField::Group(Group {
        label: Some(FieldLabel::Optional),
        name: ident("G"),
        number: num(1),
        body: body(vec![MessageItem::Field(inner)]),
        options: vec![],
        span: span(9),
    });
    file(syntax, None, vec![FileItem::Message(message("M", vec![MessageItem::Field(group)]))])
}

#[test]
fn generate_group_message() {
    let (d, _, errors) = compile(&group_file(Syntax::Proto2));
    assert!(errors.is_empty());
    let m = &d.message_type[0];
    let g = &m.field[0];
    assert_eq!(opt(&g.name), "g");
    assert_eq!(opt(&g.json_name), "g");
    assert_eq!(g.ty, Some(Type::Group));
    assert_eq!(opt(&g.type_ref), ".M.G");
    assert_eq!(g.label, Some(Label::Optional));
    assert_eq!(opt(&m.nested_type[0].name), "G");
    assert_eq!(opt(&m.nested_type[0].field[0].name), "x");
}

#[test]
fn group_in_proto3_is_reported() {
    let (_, _, errors) = compile(&group_file(Syntax::Proto3));
    assert!(errors.iter().any(|e| matches!(e, CheckError::Proto3GroupField { span } if span.start == 9)));
}

#[test]
fn generate_synthetic_oneof() {
    let a = field(Some(FieldLabel::Optional), "a", Ty::Int32, 1);
    let b = field(Some(FieldLabel::Optional), "b", Ty::Int32, 2);
    let f = file(
        Syntax::Proto3,
        None,
        vec![FileItem::Message(message("M", vec![MessageItem::Field(a), MessageItem::Field(b)]))],
    );
    let (d, _, errors) = compile(&f);
    assert!(errors.is_empty());
    let m = &d.message_type[0];
    assert_eq!(m.field.len(), 2);
    assert_eq!(m.field[0].proto3_optional, Some(true));
    assert_eq!(m.field[1].proto3_optional, Some(true));
    assert_eq!(m.oneof_decl.len(), 2);
    assert_eq!(opt(&m.oneof_decl[0].name), "_a");
    assert_eq!(opt(&m.oneof_decl[1].name), "_b");
    assert_eq!(m.field[0].oneof_index, Some(0));
    assert_eq!(m.field[1].oneof_index, Some(1));
}

#[test]
fn synthetic_oneofs_follow_declared_ones() {
    let a = field(Some(FieldLabel::Optional), "a", Ty::Int32, 1);
    let c = field(None, "c", Ty::Str, 3);
    let o = MessageField::Oneof(Oneof { name: ident("o"), options: vec![], fields: vec![c], span: span(4) });
    let f = file(
        Syntax::Proto3,
        None,
        vec![FileItem::Message(message("M", vec![MessageItem::Field(a), MessageItem::Field(o)]))],
    );
    let (d, _, errors) = compile(&f);
    assert!(errors.is_empty());
    let m = &d.message_type[0];
    assert_eq!(opt(&m.oneof_decl[0].name), "o");
    assert_eq!(opt(&m.oneof_decl[1].name), "_a");
    assert_eq!(m.field[0].oneof_index, Some(1));
    assert_eq!(m.field[1].oneof_index, Some(0));
    assert_eq!(m.field[1].proto3_optional, None);
}

#[test]
fn proto2_optional_has_no_synthetic_oneof() {
    let a = field(Some(FieldLabel::Optional), "a", Ty::Int32, 1);
    let f = file(Syntax::Proto2, None, vec![FileItem::Message(message("M", vec![MessageItem::Field(a)]))]);
    let (d, _, errors) = compile(&f);
    assert!(errors.is_empty());
    assert!(d.message_type[0].oneof_decl.is_empty());
    assert_eq!(d.message_type[0].field[0].proto3_optional, None);
}

#[test]
fn name_resolution() {
    let c = message("C", vec![]);
    let b = message("B", vec![MessageItem::Message(c)]);
    let field_c = field(None, "c", named("B.C"), 1);
    let a = message("A", vec![MessageItem::Message(b), MessageItem::Field(field_c)]);
    let f = file(Syntax::Proto3, None, vec![FileItem::Message(a)]);
    let (d, _, errors) = compile(&f);
    assert!(errors.is_empty());
    let fc = &d.message_type[0].field[0];
    assert_eq!(opt(&fc.type_ref), ".A.B.C");
    assert_eq!(fc.ty, Some(Type::Message));
}

#[test]
fn absolute_and_enum_references() {
    let e = Enum {
        name: ident("E"),
        values: vec![EnumValue { name: ident("ZERO"), value: num(0), options: vec![], span: span(0) }],
        options: vec![],
        reserved: vec![],
        span: span(0),
    };
    let x = field(None, "x", named(".p.E"), 1);
    let y = field(None, "y", named("E"), 2);
    let f = file(Syntax::Proto3, Some("p"), vec![FileItem::Enum(e), FileItem::Message(message("M", vec![MessageItem::Field(x), MessageItem::Field(y)]))]);
    let (d, names, errors) = compile(&f);
    assert!(errors.is_empty());
    let m = &d.message_type[0];
    assert_eq!(opt(&m.field[0].type_ref), ".p.E");
    assert_eq!(m.field[0].ty, Some(Type::Enum));
    assert_eq!(opt(&m.field[1].type_ref), ".p.E");
    assert!(matches!(names.get(&"p.ZERO".to_string()), Some(DefinitionKind::EnumValue { number: 0 })));
}

#[test]
fn reserved_ranges() {
    let ranges = vec![
        ReservedRange { start: num(2), end: ReservedRangeEnd::Single },
        ReservedRange { start: num(4), end: ReservedRangeEnd::Int(num(6)) },
        ReservedRange { start: num(9), end: ReservedRangeEnd::Max },
    ];
    let mut m = message("M", vec![]);
    m.body.reserved = vec![
        Reserved { kind: ReservedKind::Ranges(ranges), span: span(0) },
        Reserved { kind: ReservedKind::Names(vec![ident("foo"), ident("bar")]), span: span(0) },
    ];
    let f = file(Syntax::Proto2, None, vec![FileItem::Message(m)]);
    let (d, _, errors) = compile(&f);
    assert!(errors.is_empty());
    let r = &d.message_type[0].reserved_range;
    assert_eq!(r.len(), 3);
    assert_eq!((r[0].start, r[0].end), (Some(2), Some(3)));
    assert_eq!((r[1].start, r[1].end), (Some(4), Some(7)));
    assert_eq!((r[2].start, r[2].end), (Some(9), Some(MAX_MESSAGE_FIELD_NUMBER + 1)));
    assert_eq!(d.message_type[0].reserved_name, vec!["foo".to_string(), "bar".to_string()]);
}

#[test]
fn enum_numbers_and_reserved_ranges() {
    let e = Enum {
        name: ident("E"),
        values: vec![
            EnumValue { name: ident("NEG"), value: Int { negative: true, value: 2147483648, span: span(0) }, options: vec![], span: span(0) },
            EnumValue { name: ident("BIG"), value: Int { negative: false, value: 2147483648, span: span(5) }, options: vec![], span: span(0) },
        ],
        options: vec![],
        reserved: vec![Reserved {
            kind: ReservedKind::Ranges(vec![
                ReservedRange { start: Int { negative: true, value: 5, span: span(0) }, end: ReservedRangeEnd::Int(num(3)) },
                ReservedRange { start: num(10), end: ReservedRangeEnd::Max },
            ]),
            span: span(0),
        }],
        span: span(0),
    };
    let f = file(Syntax::Proto3, None, vec![FileItem::Enum(e)]);
    let (d, _, errors) = compile(&f);
    let en = &d.enum_type[0];
    assert_eq!(en.value[0].number, Some(i32::MIN));
    assert_eq!(en.value[1].number, None);
    assert_eq!((en.reserved_range[0].start, en.reserved_range[0].end), (Some(-5), Some(3)));
    assert_eq!((en.reserved_range[1].start, en.reserved_range[1].end), (Some(10), Some(i32::MAX)));
    assert_eq!(errors.len(), 1);
    assert!(matches!(errors[0], CheckError::InvalidEnumNumber { span } if span.start == 5));
}

#[test]
fn extension_ranges_and_extend() {
    let mut m = message("M", vec![]);
    m.body.extensions = vec![Extensions {
        ranges: vec![ReservedRange { start: num(100), end: ReservedRangeEnd::Int(num(199)) }],
        options: vec![],
        span: span(0),
    }];
    let ext = Extend { extendee: reference("M"), fields: vec![field(Some(FieldLabel::Optional), "e", Ty::Bool, 100)], span: span(0) };
    let f = file(Syntax::Proto2, Some("p"), vec![FileItem::Message(m), FileItem::Extend(ext)]);
    let (d, names, errors) = compile(&f);
    assert!(errors.is_empty());
    let r = &d.message_type[0].extension_range[0];
    assert_eq!((r.start, r.end), (Some(100), Some(200)));
    assert_eq!(opt(&d.extension[0].extendee), ".p.M");
    assert!(matches!(names.get(&"p.e".to_string()), Some(DefinitionKind::Field { number: 100, .. })));
}

#[test]
fn service_methods_resolve_messages() {
    let service = Service {
        name: ident("S"),
        methods: vec![Method {
            name: ident("Call"),
            input_ty: reference("Req"),
            output_ty: reference("E"),
            is_client_streaming: true,
            is_server_streaming: false,
            options: vec![],
            span: span(0),
        }],
        options: vec![],
        span: span(0),
    };
    let e = Enum { name: ident("E"), values: vec![], options: vec![], reserved: vec![], span: span(0) };
    let f = file(Syntax::Proto3, Some("p"), vec![FileItem::Message(message("Req", vec![])), FileItem::Enum(e), FileItem::Service(service)]);
    let (d, names, errors) = compile(&f);
    let m = &d.service[0].method[0];
    assert_eq!(opt(&m.input_type), ".p.Req");
    assert_eq!(opt(&m.output_type), ".p.E");
    assert_eq!(m.client_streaming, Some(true));
    assert_eq!(m.server_streaming, Some(false));
    assert_eq!(errors.len(), 1);
    assert!(matches!(&errors[0], CheckError::InvalidMethodTypeName { name, kind: "output", .. } if name == "E"));
    assert!(matches!(names.get(&"p.S.Call".to_string()), Some(DefinitionKind::Method)));
}

#[test]
fn imports_are_merged_by_visibility() {
    let dep = file(Syntax::Proto3, Some("dep"), vec![FileItem::Message(message("D", vec![]))]);
    let (_, dep_names, dep_errors) = compile_file(&dep, &"dep.proto".to_string(), &ParsedFileMap::new());
    assert!(dep_errors.is_empty());
    let map = ParsedFileMap { files: vec![ParsedFile { name: "dep.proto".to_string(), name_map: dep_names }] };
    let mut f = file(Syntax::Proto3, Some("main"), vec![FileItem::Message(message("M", vec![MessageItem::Field(field(None, "d", named("dep.D"), 1))]))]);
    f.imports = vec![Import { kind: Some(ImportKind::Public), value: "dep.proto".to_string(), span: span(0) }];
    let (d, _, errors) = compile_file(&f, &"main.proto".to_string(), &map);
    assert!(errors.is_empty());
    assert_eq!(d.dependency, vec!["dep.proto".to_string()]);
    assert_eq!(d.public_dependency, vec![0]);
    assert_eq!(opt(&d.message_type[0].field[0].type_ref), ".dep.D");
}

#[test]
fn duplicate_message_is_reported_once() {
    let f = file(Syntax::Proto3, None, vec![FileItem::Message(message("M", vec![])), FileItem::Message(message("M", vec![]))]);
    let (_, _, errors) = compile(&f);
    let dups: Vec<_> = errors.iter().filter(|e| matches!(e, CheckError::DuplicateName(_))).collect();
    assert_eq!(dups.len(), 1);
}

#[test]
fn unresolved_type_is_reported() {
    let f = file(Syntax::Proto3, None, vec![FileItem::Message(message("M", vec![MessageItem::Field(field(None, "x", named("Missing"), 1))]))]);
    let (d, _, errors) = compile(&f);
    assert_eq!(errors.len(), 1);
    assert!(matches!(&errors[0], CheckError::TypeNameNotFound { name, span } if name == "Missing" && span.start == 7));
    assert_eq!(opt(&d.message_type[0].field[0].type_ref), "Missing");
    assert_eq!(d.message_type[0].field[0].ty, None);
}

#[test]
fn field_type_naming_a_field_is_reported() {
    let f = file(
        Syntax::Proto3,
        None,
        vec![FileItem::Message(message("M", vec![MessageItem::Field(field(None, "a", Ty::Int32, 1)), MessageItem::Field(field(None, "b", named("a"), 2))]))],
    );
    let (_, _, errors) = compile(&f);
    assert_eq!(errors.len(), 1);
    assert!(matches!(&errors[0], CheckError::InvalidMessageFieldTypeName { name, .. } if name == "a"));
}

#[test]
fn extendee_must_be_a_message() {
    let e = Enum { name: ident("E"), values: vec![], options: vec![], reserved: vec![], span: span(0) };
    let ext = Extend { extendee: reference("E"), fields: vec![field(Some(FieldLabel::Optional), "x", Ty::Int32, 5)], span: span(0) };
    let f = file(Syntax::Proto2, None, vec![FileItem::Enum(e), FileItem::Extend(ext)]);
    let (_, _, errors) = compile(&f);
    assert!(matches!(&errors[0], CheckError::InvalidExtendeeTypeName { name, .. } if name == "E"));
}

#[test]
fn field_numbers_out_of_range() {
    let f = file(
        Syntax::Proto3,
        None,
        vec![FileItem::Message(message("M", vec![
            MessageItem::Field(field(None, "zero", Ty::Int32, 0)),
            MessageItem::Field(field(None, "big", Ty::Int32, 536870912)),
            MessageItem::Field(field(None, "max", Ty::Int32, 536870911)),
        ]))],
    );
    let (d, _, errors) = compile(&f);
    assert_eq!(errors.len(), 2);
    assert!(errors.iter().all(|e| matches!(e, CheckError::InvalidMessageNumber { .. })));
    assert_eq!(d.message_type[0].field[0].number, None);
    assert_eq!(d.message_type[0].field[2].number, Some(536870911));
}

#[test]
fn label_rules_per_syntax() {
    let proto2_file = file(Syntax::Proto2, None, vec![FileItem::Message(message("M", vec![MessageItem::Field(field(None, "a", Ty::Int32, 1))]))]);
    let (_, _, errors) = compile(&proto2_file);
    assert!(matches!(errors[0], CheckError::Proto2FieldMissingLabel { span } if span.start == 1));
    let proto3_file = file(Syntax::Proto3, None, vec![FileItem::Message(message("M", vec![MessageItem::Field(field(Some(FieldLabel::Required), "a", Ty::Int32, 1))]))]);
    let (_, _, errors) = compile(&proto3_file);
    assert!(matches!(errors[0], CheckError::Proto3RequiredField { .. }));
    let ext = Extend { extendee: reference("M"), fields: vec![field(Some(FieldLabel::Required), "x", Ty::Int32, 5)], span: span(0) };
    let proto2_extend = file(Syntax::Proto2, None, vec![FileItem::Message(message("M", vec![])), FileItem::Extend(ext)]);
    let (_, _, errors) = compile(&proto2_extend);
    assert!(matches!(errors[0], CheckError::RequiredExtendField { .. }));
}

#[test]
fn oneof_rules() {
    let labelled = field(Some(FieldLabel::Optional), "a", Ty::Int32, 1);
    let map = MessageField::MapField(MapField {
        label: None, key_ty: KeyTy::Bool, key_ty_span: span(0), ty: Ty::Bool, ty_span: span(0),
        name: ident("m"), number: num(2), options: vec![], span: span(2),
    });
    let o = MessageField::Oneof(Oneof { name: ident("o"), options: vec![], fields: vec![labelled, map], span: span(0) });
    let f = file(Syntax::Proto2, None, vec![FileItem::Message(message("M", vec![MessageItem::Field(o)]))]);
    let (d, _, errors) = compile(&f);
    assert!(matches!(errors[0], CheckError::OneofFieldWithLabel { .. }));
    assert!(matches!(errors[1], CheckError::InvalidOneofFieldKind { kind: "map", .. }));
    assert_eq!(d.message_type[0].field.len(), 1);
    assert_eq!(d.message_type[0].field[0].oneof_index, Some(0));
}

#[test]
fn extend_rules() {
    let inner = MessageField::Oneof(Oneof { name: ident("o"), options: vec![], fields: vec![], span: span(3) });
    let ext = Extend { extendee: reference("M"), fields: vec![inner], span: span(0) };
    let f = file(Syntax::Proto2, None, vec![FileItem::Message(message("M", vec![])), FileItem::Extend(ext)]);
    let (_, _, errors) = compile(&f);
    assert!(matches!(errors[0], CheckError::InvalidExtendFieldKind { kind: "oneof", span } if span.start == 3));
}

#[test]
fn map_field_rules() {
    let opts = vec![OptionBody { name: "default".to_string(), value: "1".to_string(), span: span(0) }];
    let map = MessageField::MapField(MapField {
        label: Some(FieldLabel::Repeated), key_ty: KeyTy::Bool, key_ty_span: span(0), ty: Ty::Bool, ty_span: span(0),
        name: ident("m"), number: num(2), options: opts, span: span(2),
    });
    let f = file(Syntax::Proto3, None, vec![FileItem::Message(message("M", vec![MessageItem::Field(map)]))]);
    let (_, _, errors) = compile(&f);
    assert!(matches!(errors[0], CheckError::MapFieldWithLabel { .. }));
    assert!(matches!(errors[1], CheckError::InvalidDefault { kind: "map", .. }));
}

#[test]
fn defaults_and_options() {
    let opts = vec![
        OptionBody { name: "default".to_string(), value: "7".to_string(), span: span(0) },
        OptionBody { name: "deprecated".to_string(), value: "true".to_string(), span: span(0) },
    ];
    let a = MessageField::Field(Field { label: Some(FieldLabel::Optional), name: ident("a"), ty: Ty::Int32, number: num(1), options: opts.clone(), span: span(1) });
    let b = MessageField::Field(Field { label: Some(FieldLabel::Optional), name: ident("b"), ty: named("M"), number: num(2), options: opts, span: span(2) });
    let f = file(Syntax::Proto2, None, vec![FileItem::Message(message("M", vec![MessageItem::Field(a), MessageItem::Field(b)]))]);
    let (d, _, errors) = compile(&f);
    let fa = &d.message_type[0].field[0];
    assert_eq!(opt(&fa.default_value), "7");
    let o = fa.options.as_ref().unwrap();
    assert_eq!(o.uninterpreted_option.len(), 1);
    assert_eq!(o.uninterpreted_option[0].name, "deprecated");
    assert_eq!(errors.len(), 1);
    assert!(matches!(errors[0], CheckError::InvalidDefault { kind: "message", span } if span.start == 2));
}

#[test]
fn group_default_is_reported() {
    let group = MessageField::Group(Group {
        label: Some(FieldLabel::Optional),
        name: ident("G"),
        number: num(1),
        body: body(vec![]),
        options: vec![OptionBody { name: "default".to_string(), value: "x".to_string(), span: span(0) }],
        span: span(9),
    });
    let f = file(Syntax::Proto2, None, vec![FileItem::Message(message("M", vec![MessageItem::Field(group)]))]);
    let (_, _, errors) = compile(&f);
    assert!(matches!(errors[0], CheckError::InvalidDefault { kind: "group", .. }));
}

#[test]
fn draft_check_leaves_references_unresolved() {
    let f = file(Syntax::Proto3, None, vec![FileItem::Message(message("M", vec![MessageItem::Field(field(None, "x", named("M"), 1))]))]);
    let (d, errors, _) = check_file(&f, &"t.proto".to_string(), NameMap::new(), false);
    assert!(errors.is_empty());
    assert_eq!(opt(&d.message_type[0].field[0].type_ref), "M");
    assert_eq!(d.message_type[0].field[0].ty, None);
}

#[test]
fn malformed_inputs_do_not_panic() {
    let deep = message("A", vec![MessageItem::Message(message("A", vec![MessageItem::Field(field(None, "", named(".."), 0))]))]);
    let odd = MessageField::Oneof(Oneof { name: ident(""), options: vec![], fields: vec![MessageField::Oneof(Oneof { name: ident("x"), options: vec![], fields: vec![], span: span(0) })], span: span(0) });
    let f = file(Syntax::Proto2, Some("a..b"), vec![FileItem::Message(deep), FileItem::Message(message("A", vec![MessageItem::Field(odd)]))]);
    let (_, _, errors) = compile(&f);
    assert!(!errors.is_empty());
}

fn importing(package: &str, items: Vec<FileItem>, import: &str, public: bool) -> File {
    let mut f = file(Syntax::Proto3, Some(package), items);
    f.imports = vec![Import { kind: if public { Some(ImportKind::Public) } else { None }, value: import.to_string(), span: span(0) }];
    f
}

#[test]
fn names_travel_along_public_imports_only() {
    let c = file(Syntax::Proto3, Some("c"), vec![FileItem::Message(message("C", vec![]))]);
    let (_, c_names, _) = compile_file(&c, &"c.proto".to_string(), &ParsedFileMap::new());
    for (b_public, visible) in [(true, true), (false, false)] {
        let mut map = ParsedFileMap { files: vec![ParsedFile { name: "c.proto".to_string(), name_map: compile_file(&c, &"c.proto".to_string(), &ParsedFileMap::new()).1 }] };
        let b = importing("b", vec![], "c.proto", b_public);
        let (_, b_names, b_errors) = compile_file(&b, &"b.proto".to_string(), &map);
        assert!(b_errors.is_empty());
        assert!(b_names.get(&"c.C".to_string()).is_some());
        map.files.push(ParsedFile { name: "b.proto".to_string(), name_map: b_names });
        let a = importing("a", vec![], "b.proto", true);
        let (_, a_names, _) = compile_file(&a, &"a.proto".to_string(), &map);
        assert_eq!(a_names.get(&"c.C".to_string()).is_some(), visible);
    }
    assert!(matches!(c_names.get(&"c.C".to_string()), Some(DefinitionKind::Message)));
}

#[test]
fn first_pass_holds_exactly_the_declarations() {
    let f = file(Syntax::Proto3, Some("p"), vec![FileItem::Message(message("M", vec![MessageItem::Field(field(None, "x", Ty::Int32, 1))]))]);
    let (d, _, _) = compile(&f);
    let (names, errors) = NameMap::from_proto(&d, &ParsedFileMap::new());
    assert!(errors.is_empty());
    assert!(matches!(names.get(&"p".to_string()), Some(DefinitionKind::Package)));
    assert!(matches!(names.get(&"p.M".to_string()), Some(DefinitionKind::Message)));
    assert!(matches!(names.get(&"p.M.x".to_string()), Some(DefinitionKind::Field { number: 1, .. })));
    assert!(names.get(&"".to_string()).is_none());
    assert!(names.get(&"x".to_string()).is_none());
}

#[test]
fn extend_members_in_order_with_rejections() {
    let map = MessageField::MapField(MapField {
        label: None, key_ty: KeyTy::Bool, key_ty_span: span(0), ty: Ty::Bool, ty_span: span(0),
        name: ident("m"), number: num(3), options: vec![], span: span(30),
    });
    let ext = Extend {
        extendee: reference("M"),
        fields: vec![field(Some(FieldLabel::Optional), "a", Ty::Int32, 10), map, field(Some(FieldLabel::Repeated), "b", Ty::Str, 11)],
        span: span(0),
    };
    let f = file(Syntax::Proto2, Some("p"), vec![FileItem::Message(message("M", vec![])), FileItem::Extend(ext)]);
    let (d, _, errors) = compile(&f);
    assert_eq!(d.extension.len(), 2);
    assert_eq!(opt(&d.extension[0].name), "a");
    assert_eq!(opt(&d.extension[1].name), "b");
    assert!(d.extension.iter().all(|e| e.extendee.as_deref() == Some(".p.M") && e.oneof_index.is_none()));
    assert!(errors.iter().any(|e| matches!(e, CheckError::InvalidExtendFieldKind { kind: "map", span } if span.start == 30)));
}

#[test]
fn first_pass_reports_each_duplicate_once() {
    let f = file(Syntax::Proto3, Some("p"), vec![
        FileItem::Message(message("M", vec![])),
        FileItem::Message(message("M", vec![])),
        FileItem::Message(message("N", vec![])),
    ]);
    let (d, _, _) = compile(&f);
    let (_, errors) = NameMap::from_proto(&d, &ParsedFileMap::new());
    assert_eq!(errors.len(), 1);
    assert_eq!(errors[0].name, "p.M");
}

#[test]
fn valid_group_adds_no_diagnostics() {
    let (d, _, errors) = compile(&group_file(Syntax::Proto2));
    assert!(errors.is_empty());
    let g = &d.message_type[0].nested_type[0];
    assert_eq!(g.field.len(), 1);
    assert_eq!(g.field[0].number, Some(1));
    assert_eq!(g.field[0].ty, Some(Type::Int32));
}
