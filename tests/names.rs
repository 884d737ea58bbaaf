use protox::ast::Span;
use protox::ast::{File, FileItem, Ident, Message, MessageBody, Syntax};
use protox::check::compile_file;
use protox::names::{DefinitionKind, DuplicateNameError, NameLocation, NameMap, ParsedFileMap};

fn span(n: usize) -> Span {
    Span { start: n, end: n + 1 }
}

fn add(map: &mut NameMap, name: &str, kind: DefinitionKind) {
    assert!(map.add(name.to_string(), kind, Some(span(0)), None, true).is_ok());
}

fn resolved(map: &NameMap, scope: &str, name: &str) -> Option<String> {
    map.resolve(scope, name).map(|(abs, _)| abs)
}

#[test]
fn scope_search_tries_innermost_first() {
    let mut map = NameMap::new();
    add(&mut map, "X", DefinitionKind::Message);
    add(&mut map, "a.X", DefinitionKind::Enum);
    add(&mut map, "a.b.X", DefinitionKind::Message);
    assert_eq!(resolved(&map, "a.b.c", "X").as_deref(), Some(".a.b.X"));
    assert!(matches!(map.resolve("a.b.c", "X"), Some((_, DefinitionKind::Message))));
    add(&mut map, "a.b.c.X", DefinitionKind::Service);
    assert_eq!(resolved(&map, "a.b.c", "X").as_deref(), Some(".a.b.c.X"));
    assert_eq!(resolved(&map, "a", "X").as_deref(), Some(".a.X"));
    assert_eq!(resolved(&map, "", "X").as_deref(), Some(".X"));
    assert_eq!(resolved(&map, "z.y", "X").as_deref(), Some(".X"));
}

#[test]
fn scope_search_falls_back_to_root_and_misses() {
    let mut map = NameMap::new();
    add(&mut map, "X", DefinitionKind::Message);
    assert_eq!(resolved(&map, "a.b.c", "X").as_deref(), Some(".X"));
    assert_eq!(resolved(&map, "a.b.c", "Y"), None);
    assert_eq!(resolved(&map, "a.b.c", ".X").as_deref(), Some(".X"));
    assert_eq!(resolved(&map, "", ".a.X"), None);
}

#[test]
fn relative_dotted_name_resolves_from_enclosing_scope() {
    let mut map = NameMap::new();
    add(&mut map, "A", DefinitionKind::Message);
    add(&mut map, "A.B", DefinitionKind::Message);
    add(&mut map, "A.B.C", DefinitionKind::Message);
    assert_eq!(resolved(&map, "A", "B.C").as_deref(), Some(".A.B.C"));
    assert_eq!(resolved(&map, "A.B.C", "B.C").as_deref(), Some(".A.B.C"));
}

#[test]
fn duplicate_names_both_orders() {
    let mut first = NameMap::new();
    assert!(first.add("p.M".to_string(), DefinitionKind::Message, Some(span(1)), None, true).is_ok());
    let err = first.add("p.M".to_string(), DefinitionKind::Enum, Some(span(2)), None, true).unwrap_err();
    assert_eq!(err.name, "p.M");
    assert!(matches!(err.first, NameLocation::Root(s) if s.start == 1));
    assert!(matches!(err.second, NameLocation::Root(s) if s.start == 2));

    let mut second = NameMap::new();
    assert!(second.add("p.M".to_string(), DefinitionKind::Enum, Some(span(2)), None, true).is_ok());
    let err = second.add("p.M".to_string(), DefinitionKind::Message, Some(span(1)), None, true).unwrap_err();
    assert!(matches!(err.first, NameLocation::Root(s) if s.start == 2));
    assert!(matches!(err.second, NameLocation::Root(s) if s.start == 1));
}

#[test]
fn duplicate_with_imported_name() {
    let mut map = NameMap::new();
    assert!(map.add("M".to_string(), DefinitionKind::Message, None, Some("dep.proto".to_string()), true).is_ok());
    let err = map.add("M".to_string(), DefinitionKind::Message, Some(span(4)), None, true).unwrap_err();
    assert!(matches!(&err.first, NameLocation::Import(f) if f == "dep.proto"));
    assert!(matches!(err.second, NameLocation::Root(s) if s.start == 4));
    let err = map.add("M".to_string(), DefinitionKind::Message, None, None, true).unwrap_err();
    assert!(matches!(err.second, NameLocation::Unknown));
}

#[test]
fn packages_coalesce() {
    let mut map = NameMap::new();
    add(&mut map, "p", DefinitionKind::Package);
    assert!(map.add("p".to_string(), DefinitionKind::Package, None, None, true).is_ok());
    assert!(map.add("p".to_string(), DefinitionKind::Message, None, None, true).is_err());
}

#[test]
fn merge_reports_each_clash_once() {
    let mut other = NameMap::new();
    add(&mut other, "A", DefinitionKind::Message);
    add(&mut other, "B", DefinitionKind::Message);
    add(&mut other, "p", DefinitionKind::Package);
    let mut map = NameMap::new();
    add(&mut map, "A", DefinitionKind::Enum);
    add(&mut map, "p", DefinitionKind::Package);
    let errors = map.merge(&other, &"other.proto".to_string(), false);
    assert_eq!(errors.len(), 1);
    assert_eq!(errors[0].name, "A");
    assert!(matches!(&errors[0].second, NameLocation::Import(f) if f == "other.proto"));
    assert!(matches!(map.get(&"A".to_string()), Some(DefinitionKind::Enum)));
    assert!(matches!(map.get(&"B".to_string()), Some(DefinitionKind::Message)));
}

#[test]
fn visibility_follows_public_imports() {
    let mut c = NameMap::new();
    add(&mut c, "c.M", DefinitionKind::Message);

    let mut b_public = NameMap::new();
    assert!(b_public.merge(&c, &"c.proto".to_string(), true).is_empty());
    let mut a = NameMap::new();
    assert!(a.merge(&b_public, &"b.proto".to_string(), false).is_empty());
    assert!(matches!(a.get(&"c.M".to_string()), Some(DefinitionKind::Message)));
    let mut further = NameMap::new();
    assert!(further.merge(&a, &"a.proto".to_string(), true).is_empty());
    assert!(further.get(&"c.M".to_string()).is_none());

    let mut b_private = NameMap::new();
    assert!(b_private.merge(&c, &"c.proto".to_string(), false).is_empty());
    assert!(b_private.get(&"c.M".to_string()).is_some());
    let mut a2 = NameMap::new();
    assert!(a2.merge(&b_private, &"b.proto".to_string(), true).is_empty());
    assert!(a2.get(&"c.M".to_string()).is_none());
}

#[test]
fn every_declaration_resolves_from_its_scope() {
    let nested = Message { name: Ident { value: "N".to_string(), span: span(0) }, body: MessageBody { items: vec![], extensions: vec![], options: vec![], reserved: vec![] }, span: span(0) };
    let outer = Message {
        name: Ident { value: "M".to_string(), span: span(0) },
        body: MessageBody { items: vec![protox::ast::MessageItem::Message(nested)], extensions: vec![], options: vec![], reserved: vec![] },
        span: span(0),
    };
    let f = File {
        syntax: Syntax::Proto3,
        package: Some(Ident { value: "x.y".to_string(), span: span(0) }),
        imports: vec![],
        options: vec![],
        items: vec![FileItem::Message(outer)],
    };
    let (_, names, errors) = compile_file(&f, &"t.proto".to_string(), &ParsedFileMap::new());
    assert!(errors.is_empty());
    assert_eq!(resolved(&names, "", "x").as_deref(), Some(".x"));
    assert_eq!(resolved(&names, "x", "y").as_deref(), Some(".x.y"));
    assert_eq!(resolved(&names, "x.y", "M").as_deref(), Some(".x.y.M"));
    assert_eq!(resolved(&names, "x.y.M", "N").as_deref(), Some(".x.y.M.N"));
    assert!(matches!(names.resolve("x.y.M", "N"), Some((_, DefinitionKind::Message))));
}

#[test]
fn duplicate_messages_and_labels() {
    let both_imported = DuplicateNameError {
        name: "a.M".to_string(),
        first: NameLocation::Import("x.proto".to_string()),
        second: NameLocation::Import("y.proto".to_string()),
    };
    assert_eq!(both_imported.message(), "name 'a.M' is defined both in imported file 'x.proto' and 'y.proto'");
    assert!(both_imported.labels().is_empty());

    let first_imported = DuplicateNameError {
        name: "M".to_string(),
        first: NameLocation::Import("x.proto".to_string()),
        second: NameLocation::Root(span(8)),
    };
    assert_eq!(first_imported.message(), "name 'M' is already defined in imported file 'x.proto'");
    let labels = first_imported.labels();
    assert_eq!(labels.len(), 1);
    assert_eq!(labels[0].text, "defined here");
    assert_eq!(labels[0].span.start, 8);

    let local = DuplicateNameError { name: "M".to_string(), first: NameLocation::Root(span(1)), second: NameLocation::Root(span(5)) };
    assert_eq!(local.message(), "name 'M' is defined twice");
    let labels = local.labels();
    assert_eq!(labels.len(), 2);
    assert_eq!(labels[0].text, "first defined here…");
    assert_eq!(labels[0].span.start, 1);
    assert_eq!(labels[1].text, "…and defined again here");
    assert_eq!(labels[1].span.start, 5);
}
