//! The intermediate representation: a file's messages with the implicit
//! constructs made explicit. Every map field gets its entry message, every
//! group its message, and every proto3 `optional` field outside a oneof a
//! oneof of its own, placed after the declared ones.
use vstd::prelude::*;

use crate::ast;
use crate::case::{camel, to_pascal_case};

verus! {

/// A file with its messages, including those that extends generate.
#[derive(Debug)]
pub struct File<'a> {
    pub ast: &'a ast::File,
    pub messages: Vec<Message<'a>>,
}

#[derive(Debug)]
pub struct Message<'a> {
    pub ast: MessageSource<'a>,
    pub fields: Vec<Field<'a>>,
    pub messages: Vec<Message<'a>>,
    pub oneofs: Vec<Oneof<'a>>,
}

/// Where a message comes from: a declaration, a group, or a map field.
#[derive(Debug)]
pub enum MessageSource<'a> {
    Message(&'a ast::Message),
    Group(&'a ast::Group),
    MapField(&'a ast::MapField),
}

#[derive(Debug)]
pub struct Field<'a> {
    pub ast: FieldSource<'a>,
    pub oneof_index: Option<usize>,
    pub is_synthetic_oneof: bool,
}

/// Where a field comes from: a declaration, or the key or the value of a
/// map field.
#[derive(Debug)]
pub enum FieldSource<'a> {
    Field(&'a ast::Field),
    Group(&'a ast::Group),
    MapField(&'a ast::MapField),
    MapKey(ast::KeyTy, ast::Span),
    MapValue(&'a ast::Ty, ast::Span),
}

#[derive(Debug)]
pub struct Oneof<'a> {
    pub ast: OneofSource<'a>,
}

/// A declared oneof, or the oneof made for one proto3 optional field.
#[derive(Debug)]
pub enum OneofSource<'a> {
    Oneof(&'a ast::Oneof),
    Field(&'a ast::Field),
}

pub open spec fn is_synthetic(o: Oneof) -> bool {
    o.ast is Field
}

/// Declared oneofs come first, then synthetic ones.
pub open spec fn oneofs_ordered(oneofs: Seq<Oneof>) -> bool {
    forall|i: int, j: int|
        0 <= i < j < oneofs.len() && is_synthetic(#[trigger] oneofs[i]) ==> is_synthetic(
            #[trigger] oneofs[j],
        )
}

/// Each field that owns a synthetic oneof points at it, and it at the field.
pub open spec fn synthetic_links_ok(fields: Seq<Field>, oneofs: Seq<Oneof>) -> bool {
    forall|i: int|
        0 <= i < fields.len() && (#[trigger] fields[i]).is_synthetic_oneof ==> (fields[i].ast matches FieldSource::Field(f)
            && fields[i].oneof_index matches Some(j) && 0 <= j < oneofs.len() && oneofs[j as int].ast
            == OneofSource::Field(f))
}

/// A map entry message: the key and the value, nothing else.
pub open spec fn map_entry_ok(m: Message) -> bool {
    m.ast is MapField ==> {
        &&& m.fields@.len() == 2
        &&& m.fields@[0].ast is MapKey
        &&& m.fields@[1].ast is MapValue
        &&& m.messages@.len() == 0
        &&& m.oneofs@.len() == 0
    }
}

/// The shape every built message has, here and in all its nested messages.
pub open spec fn message_ok(m: Message) -> bool
    decreases m,
{
    &&& map_entry_ok(m)
    &&& oneofs_ordered(m.oneofs@)
    &&& synthetic_links_ok(m.fields@, m.oneofs@)
    &&& forall|i: int| 0 <= i < m.messages@.len() ==> message_ok(#[trigger] m.messages@[i])
}

pub open spec fn messages_ok(ms: Seq<Message>) -> bool {
    forall|i: int| 0 <= i < ms.len() ==> message_ok(#[trigger] ms[i])
}

pub open spec fn source_name(s: MessageSource) -> Seq<char> {
    match s {
        MessageSource::Message(m) => m.name.value@,
        MessageSource::Group(g) => g.name.value@,
        MessageSource::MapField(m) => camel(m.name.value@, true) + "Entry"@,
    }
}

impl<'a> MessageSource<'a> {
    /// The message's name: as declared, the group's name, or the map
    /// field's name in Pascal case followed by `Entry`.
    pub fn name(&self) -> (r: String)
        ensures
            r@ == source_name(*self),
    {
        match self {
            MessageSource::Message(message) => message.name.value.clone(),
            MessageSource::Group(group) => group.name.value.clone(),
            MessageSource::MapField(map) => {
                let mut name = to_pascal_case(map.name.value.as_str());
                name.append("Entry");
                name
            },
        }
    }

    pub fn name_span(&self) -> (r: ast::Span)
        ensures
            r == match *self {
                MessageSource::Message(m) => m.name.span,
                MessageSource::Group(g) => g.name.span,
                MessageSource::MapField(m) => m.name.span,
            },
    {
        match self {
            MessageSource::Message(message) => message.name.span,
            MessageSource::Group(group) => group.name.span,
            MessageSource::MapField(map) => map.name.span,
        }
    }

    /// The body the message was declared with; a map entry has none.
    pub fn body(&self) -> (r: Option<&'a ast::MessageBody>)
        ensures
            r == match *self {
                MessageSource::Message(m) => Some(&m.body),
                MessageSource::Group(g) => Some(&g.body),
                MessageSource::MapField(_) => None,
            },
    {
        match self {
            MessageSource::Message(message) => Some(&message.body),
            MessageSource::Group(group) => Some(&group.body),
            MessageSource::MapField(_) => None,
        }
    }
}

/// The parts of a message body while it is built: its fields, its declared
/// oneofs, its synthetic oneofs, and where its nested messages come from.
pub type Parts<'a> = (Seq<Field<'a>>, Seq<Oneof<'a>>, Seq<Oneof<'a>>, Seq<MessageSource<'a>>);

pub open spec fn sources<'a>(ms: Seq<Message<'a>>) -> Seq<MessageSource<'a>> {
    ms.map_values(|m: Message<'a>| m.ast)
}

/// Whether a field in that position gets a synthetic oneof: a proto3
/// `optional` field outside any oneof.
pub open spec fn gets_synthetic(syntax: ast::Syntax, f: ast::Field, oneof_index: Option<usize>) -> bool {
    oneof_index is None && syntax != ast::Syntax::Proto2 && f.label == Some(ast::FieldLabel::Optional)
}

/// One field of a body, visited with the oneof it stands in: it adds its
/// field; a proto3 optional one adds its synthetic oneof; a group or a map
/// adds its message; a oneof adds its members and then itself, unless it
/// stands in another oneof, where it has no place and adds nothing.
pub open spec fn field_step<'a>(
    syntax: ast::Syntax,
    field: &'a ast::MessageField,
    oneof_index: Option<usize>,
    st: Parts<'a>,
) -> Parts<'a>
    decreases field,
{
    match field {
        ast::MessageField::Field(f) => {
            let syn = gets_synthetic(syntax, *f, oneof_index);
            (
                st.0.push(
                    Field {
                        ast: FieldSource::Field(f),
                        oneof_index: if syn {
                            Some(st.2.len() as usize)
                        } else {
                            oneof_index
                        },
                        is_synthetic_oneof: syn,
                    },
                ),
                st.1,
                if syn {
                    st.2.push(Oneof { ast: OneofSource::Field(f) })
                } else {
                    st.2
                },
                st.3,
            )
        },
        ast::MessageField::Group(g) => (
            st.0.push(Field { ast: FieldSource::Group(g), oneof_index, is_synthetic_oneof: false }),
            st.1,
            st.2,
            st.3.push(MessageSource::Group(g)),
        ),
        ast::MessageField::MapField(m) => (
            st.0.push(Field { ast: FieldSource::MapField(m), oneof_index, is_synthetic_oneof: false }),
            st.1,
            st.2,
            st.3.push(MessageSource::MapField(m)),
        ),
        ast::MessageField::Oneof(o) => if oneof_index is None {
            oneof_step(syntax, o, st)
        } else {
            st
        },
    }
}

/// A declared oneof: its members, all pointing at the place it takes among
/// the declared oneofs, and then the oneof itself.
pub open spec fn oneof_step<'a>(syntax: ast::Syntax, o: &'a ast::Oneof, st: Parts<'a>) -> Parts<'a>
    decreases o, 1int,
{
    let inner = members_step(syntax, o, o.fields@.len() as int, Some(st.1.len() as usize), st);
    (inner.0, inner.1.push(Oneof { ast: OneofSource::Oneof(o) }), inner.2, inner.3)
}

/// The first `n` members of a oneof.
pub open spec fn members_step<'a>(
    syntax: ast::Syntax,
    o: &'a ast::Oneof,
    n: int,
    oneof_index: Option<usize>,
    st: Parts<'a>,
) -> Parts<'a>
    decreases o, 0int, n,
{
    if n <= 0 || n > o.fields@.len() {
        st
    } else {
        field_step(syntax, &o.fields@[n - 1], oneof_index, members_step(syntax, o, n - 1, oneof_index, st))
    }
}

/// The group messages of the first `n` members of an extend.
pub open spec fn extend_sources<'a>(e: &'a ast::Extend, n: int) -> Seq<MessageSource<'a>>
    decreases n,
{
    if n <= 0 || n > e.fields@.len() {
        Seq::empty()
    } else {
        extend_sources(e, n - 1) + match &e.fields@[n - 1] {
            ast::MessageField::Group(g) => seq![MessageSource::Group(g)],
            _ => Seq::empty(),
        }
    }
}

/// One item of a body: a field as `field_step` says, outside any oneof; a
/// message or the groups of an extend add their messages; an enum adds
/// nothing.
pub open spec fn item_step<'a>(syntax: ast::Syntax, item: &'a ast::MessageItem, st: Parts<'a>) -> Parts<'a> {
    match item {
        ast::MessageItem::Field(f) => field_step(syntax, f, None, st),
        ast::MessageItem::Message(m) => (st.0, st.1, st.2, st.3.push(MessageSource::Message(m))),
        ast::MessageItem::Extend(e) => (st.0, st.1, st.2, st.3 + extend_sources(e, e.fields@.len() as int)),
        ast::MessageItem::Enum(_) => st,
    }
}

/// The parts of the first `n` items of a body, visited in order.
pub open spec fn items_step<'a>(syntax: ast::Syntax, body: &'a ast::MessageBody, n: int) -> Parts<'a>
    decreases n,
{
    if n <= 0 || n > body.items@.len() {
        (Seq::empty(), Seq::empty(), Seq::empty(), Seq::empty())
    } else {
        item_step(syntax, &body.items@[n - 1], items_step(syntax, body, n - 1))
    }
}

/// A field pointing at its synthetic oneof by its place among the synthetic
/// ones, moved past the `n` declared oneofs.
pub open spec fn fixup<'a>(f: Field<'a>, n: int) -> Field<'a> {
    if f.is_synthetic_oneof && f.oneof_index is Some {
        Field { oneof_index: Some((f.oneof_index->0 + n) as usize), ..f }
    } else {
        f
    }
}

/// `fields`, `srcs` and `oneofs` are what the body builds: its fields in
/// order, oneof members inline; the sources of its nested messages in the
/// order found; its declared oneofs followed by its synthetic ones, each in
/// order of declaration.
pub open spec fn body_built<'a>(
    syntax: ast::Syntax,
    body: &'a ast::MessageBody,
    fields: Seq<Field<'a>>,
    srcs: Seq<MessageSource<'a>>,
    oneofs: Seq<Oneof<'a>>,
) -> bool {
    let st = items_step(syntax, body, body.items@.len() as int);
    &&& fields == st.0.map_values(|f: Field<'a>| fixup(f, st.1.len() as int))
    &&& oneofs == st.1 + st.2
    &&& srcs == st.3
}

/// `m` is the message its source builds, and so are its nested messages.
pub open spec fn built<'a>(syntax: ast::Syntax, m: Message<'a>) -> bool
    decreases m,
{
    &&& match m.ast {
        MessageSource::Message(x) => body_built(syntax, &x.body, m.fields@, sources(m.messages@), m.oneofs@),
        MessageSource::Group(g) => body_built(syntax, &g.body, m.fields@, sources(m.messages@), m.oneofs@),
        MessageSource::MapField(mp) => {
            &&& m.fields@ == seq![
                Field { ast: FieldSource::MapKey(mp.key_ty, mp.key_ty_span), oneof_index: None, is_synthetic_oneof: false },
                Field { ast: FieldSource::MapValue(&mp.ty, mp.ty_span), oneof_index: None, is_synthetic_oneof: false },
            ]
            &&& m.messages@.len() == 0
            &&& m.oneofs@.len() == 0
        },
    }
    &&& forall|i: int| 0 <= i < m.messages@.len() ==> built(syntax, #[trigger] m.messages@[i])
}

pub open spec fn messages_built<'a>(syntax: ast::Syntax, ms: Seq<Message<'a>>) -> bool {
    forall|i: int| 0 <= i < ms.len() ==> built(syntax, #[trigger] ms[i])
}

/// The messages a file builds: one for each message, and one for each group
/// of an extend, in order.
pub open spec fn file_sources<'a>(file: &'a ast::File, n: int) -> Seq<MessageSource<'a>>
    decreases n,
{
    if n <= 0 || n > file.items@.len() {
        Seq::empty()
    } else {
        file_sources(file, n - 1) + match &file.items@[n - 1] {
            ast::FileItem::Message(m) => seq![MessageSource::Message(m)],
            ast::FileItem::Extend(e) => extend_sources(e, e.fields@.len() as int),
            _ => Seq::empty(),
        }
    }
}

proof fn lemma_push_built<'a>(syntax: ast::Syntax, ms: Seq<Message<'a>>, m: Message<'a>)
    requires
        messages_built(syntax, ms),
        built(syntax, m),
    ensures
        messages_built(syntax, ms.push(m)),
        sources(ms.push(m)) == sources(ms).push(m.ast),
{
    assert forall|i: int| 0 <= i < ms.push(m).len() implies built(syntax, #[trigger] ms.push(m)[i]) by {
        if i < ms.len() {
            assert(ms.push(m)[i] == ms[i]);
        }
    }
    assert(sources(ms.push(m)) =~= sources(ms).push(m.ast));
}

/// The parts of a message body while it is being built: declared oneofs
/// and synthetic ones are kept apart, and a field that owns a synthetic
/// oneof points at its place among the synthetic ones.
pub open spec fn parts_ok(
    fields: Seq<Field>,
    messages: Seq<Message>,
    explicit: Seq<Oneof>,
    synthetic: Seq<Oneof>,
) -> bool {
    &&& messages_ok(messages)
    &&& forall|i: int| 0 <= i < explicit.len() ==> !is_synthetic(#[trigger] explicit[i])
    &&& forall|i: int| 0 <= i < synthetic.len() ==> is_synthetic(#[trigger] synthetic[i])
    &&& forall|i: int|
        0 <= i < fields.len() && (#[trigger] fields[i]).is_synthetic_oneof ==> (fields[i].ast matches FieldSource::Field(f)
            && fields[i].oneof_index matches Some(k) && k < synthetic.len() && synthetic[k as int].ast
            == OneofSource::Field(f))
}

proof fn lemma_push_message(fields: Seq<Field>, messages: Seq<Message>, explicit: Seq<Oneof>, synthetic: Seq<Oneof>, m: Message)
    requires
        parts_ok(fields, messages, explicit, synthetic),
        message_ok(m),
    ensures
        parts_ok(fields, messages.push(m), explicit, synthetic),
{
    assert forall|i: int| 0 <= i < messages.push(m).len() implies message_ok(#[trigger] messages.push(m)[i]) by {
        if i < messages.len() {
            assert(messages.push(m)[i] == messages[i]);
        }
    }
}

impl<'a> File<'a> {
    /// Builds the representation of a file: its messages, and the group
    /// messages of its extends, in order of declaration. Enums and services
    /// have no part in it.
    pub fn build(ast: &'a ast::File) -> (r: File<'a>)
        ensures
            r.ast == ast,
            messages_ok(r.messages@),
            messages_built(ast.syntax, r.messages@),
            sources(r.messages@) == file_sources(ast, ast.items@.len() as int),
    {
        let mut messages: Vec<Message<'a>> = Vec::new();
        let mut i: usize = 0;
        proof {
            assert(sources(messages@) =~= Seq::<MessageSource<'a>>::empty());
        }
        while i < ast.items.len()
            invariant
                i <= ast.items@.len(),
                messages_ok(messages@),
                messages_built(ast.syntax, messages@),
                sources(messages@) == file_sources(ast, i as int),
            decreases ast.items@.len() - i,
        {
            match &ast.items[i] {
                ast::FileItem::Message(message) => build_message(ast.syntax, message, &mut messages),
                ast::FileItem::Extend(extend) => build_extend(ast.syntax, extend, &mut messages),
                ast::FileItem::Enum(_) => {},
                ast::FileItem::Service(_) => {},
            }
            i = i + 1;
        }
        File { ast, messages }
    }
}

fn build_message<'a>(syntax: ast::Syntax, ast: &'a ast::Message, messages: &mut Vec<Message<'a>>)
    requires
        messages_ok(old(messages)@),
        messages_built(syntax, old(messages)@),
    ensures
        messages_ok(final(messages)@),
        messages_built(syntax, final(messages)@),
        final(messages)@.len() == old(messages)@.len() + 1,
        final(messages)@.drop_last() == old(messages)@,
        final(messages)@.last().ast == MessageSource::Message(ast),
        sources(final(messages)@) == sources(old(messages)@).push(MessageSource::Message(ast)),
    decreases ast,
{
    let (fields, nested_messages, oneofs) = build_message_body(syntax, &ast.body);
    let m = Message { ast: MessageSource::Message(ast), fields, messages: nested_messages, oneofs };
    let ghost before = messages@;
    proof {
        assert(built(syntax, m));
    }
    messages.push(m);
    proof {
        lemma_push_built(syntax, before, m);
        lemma_push_message(Seq::empty(), before, Seq::empty(), Seq::empty(), m);
        assert(messages@.drop_last() =~= before);
    }
}

/// The fields, nested messages and oneofs of a message body; declared
/// oneofs come first, then one for each proto3 optional field, both in
/// order of declaration.
pub fn build_message_body<'a>(syntax: ast::Syntax, ast: &'a ast::MessageBody) -> (r: (
    Vec<Field<'a>>,
    Vec<Message<'a>>,
    Vec<Oneof<'a>>,
))
    ensures
        messages_ok(r.1@),
        oneofs_ordered(r.2@),
        synthetic_links_ok(r.0@, r.2@),
        messages_built(syntax, r.1@),
        body_built(syntax, ast, r.0@, sources(r.1@), r.2@),
    decreases ast,
{
    let mut fields: Vec<Field<'a>> = Vec::new();
    let mut messages: Vec<Message<'a>> = Vec::new();
    let mut explicit: Vec<Oneof<'a>> = Vec::new();
    let mut synthetic: Vec<Oneof<'a>> = Vec::new();
    let mut i: usize = 0;
    proof {
        assert(sources(messages@) =~= Seq::<MessageSource<'a>>::empty());
    }
    while i < ast.items.len()
        invariant
            i <= ast.items@.len(),
            parts_ok(fields@, messages@, explicit@, synthetic@),
            messages_built(syntax, messages@),
            (fields@, explicit@, synthetic@, sources(messages@)) == items_step(syntax, ast, i as int),
        decreases ast.items@.len() - i,
    {
        match &ast.items[i] {
            ast::MessageItem::Field(field) => {
                build_field(syntax, field, &mut fields, &mut messages, &mut explicit, &mut synthetic, None)
            },
            ast::MessageItem::Message(message) => {
                let ghost m0 = messages@;
                build_message(syntax, message, &mut messages);
                proof {
                    lemma_push_message(fields@, m0, explicit@, synthetic@, messages@.last());
                    assert(messages@ =~= m0.push(messages@.last()));
                }
            },
            ast::MessageItem::Extend(extend) => build_extend(syntax, extend, &mut messages),
            ast::MessageItem::Enum(_) => {},
        }
        i = i + 1;
    }
    let ghost st = items_step(syntax, ast, ast.items@.len() as int);
    let first = explicit.len();
    let ghost ex = explicit@;
    let ghost sy = synthetic@;
    let mut oneofs = explicit;
    oneofs.append(&mut synthetic);
    let total = oneofs.len();
    let mut j: usize = 0;
    while j < fields.len()
        invariant
            j <= fields@.len(),
            oneofs@ == ex + sy,
            first == ex.len(),
            total == oneofs@.len(),
            forall|i: int| 0 <= i < sy.len() ==> is_synthetic(#[trigger] sy[i]),
            fields@.len() == st.0.len(),
            ex == st.1,
            forall|k: int| j <= k < fields@.len() ==> fields@[k] == st.0[k],
            forall|k: int| 0 <= k < j ==> fields@[k] == fixup(#[trigger] st.0[k], first as int),
            forall|k: int|
                j <= k < fields@.len() && (#[trigger] fields@[k]).is_synthetic_oneof ==> (fields@[k].ast matches FieldSource::Field(f)
                    && fields@[k].oneof_index matches Some(n) && n < sy.len() && sy[n as int].ast
                    == OneofSource::Field(f)),
            forall|k: int|
                0 <= k < j && (#[trigger] fields@[k]).is_synthetic_oneof ==> (fields@[k].ast matches FieldSource::Field(f)
                    && fields@[k].oneof_index matches Some(n) && 0 <= n < oneofs@.len() && oneofs@[n as int].ast
                    == OneofSource::Field(f)),
        decreases fields@.len() - j,
    {
        if fields[j].is_synthetic_oneof {
            match fields[j].oneof_index {
                Some(n) => {
                    let ghost f0 = fields@;
                    fields[j].oneof_index = Some(first + n);
                    proof {
                        assert(fields@[j as int] == fixup(st.0[j as int], first as int));
                        assert(oneofs@[first + n] == sy[n as int]);
                        assert forall|k: int| 0 <= k < j + 1 && (#[trigger] fields@[k]).is_synthetic_oneof implies (fields@[k].ast matches FieldSource::Field(f)
                            && fields@[k].oneof_index matches Some(n2) && 0 <= n2 < oneofs@.len() && oneofs@[n2 as int].ast
                            == OneofSource::Field(f)) by {
                            if k < j {
                                assert(fields@[k] == f0[k]);
                            }
                        }
                    }
                },
                None => {},
            }
        }
        j = j + 1;
    }
    proof {
        assert(fields@ =~= st.0.map_values(|f: Field<'a>| fixup(f, st.1.len() as int)));
    }
    proof {
        assert forall|a: int, b: int|
            0 <= a < b < oneofs@.len() && is_synthetic(#[trigger] oneofs@[a]) implies is_synthetic(
                #[trigger] oneofs@[b],
            ) by {
            if b < first {
                assert(oneofs@[a] == ex[a]);
            } else {
                assert(oneofs@[b] == sy[b - first]);
            }
        }
    }
    (fields, messages, oneofs)
}

fn build_field<'a>(
    syntax: ast::Syntax,
    field: &'a ast::MessageField,
    fields: &mut Vec<Field<'a>>,
    messages: &mut Vec<Message<'a>>,
    explicit: &mut Vec<Oneof<'a>>,
    synthetic: &mut Vec<Oneof<'a>>,
    oneof_index: Option<usize>,
)
    requires
        parts_ok(old(fields)@, old(messages)@, old(explicit)@, old(synthetic)@),
        messages_built(syntax, old(messages)@),
    ensures
        parts_ok(final(fields)@, final(messages)@, final(explicit)@, final(synthetic)@),
        messages_built(syntax, final(messages)@),
        (final(fields)@, final(explicit)@, final(synthetic)@, sources(final(messages)@)) == field_step(
            syntax,
            field,
            oneof_index,
            (old(fields)@, old(explicit)@, old(synthetic)@, sources(old(messages)@)),
        ),
    decreases field,
{
    match field {
        ast::MessageField::Field(f) => {
            let mut index = oneof_index;
            let mut is_synthetic_oneof = false;
            if oneof_index.is_none() && syntax != ast::Syntax::Proto2 && f.label == Some(ast::FieldLabel::Optional) {
                index = Some(synthetic.len());
                synthetic.push(Oneof { ast: OneofSource::Field(f) });
                is_synthetic_oneof = true;
            }
            let ghost f0 = fields@;
            fields.push(Field { ast: FieldSource::Field(f), oneof_index: index, is_synthetic_oneof });
            proof {
                assert forall|i: int| 0 <= i < fields@.len() && (#[trigger] fields@[i]).is_synthetic_oneof implies (fields@[i].ast matches FieldSource::Field(g)
                    && fields@[i].oneof_index matches Some(k) && k < synthetic@.len() && synthetic@[k as int].ast
                    == OneofSource::Field(g)) by {
                    if i < f0.len() {
                        assert(fields@[i] == f0[i]);
                        if let Some(k) = f0[i].oneof_index {
                            if k < old(synthetic)@.len() {
                                assert(synthetic@[k as int] == old(synthetic)@[k as int]);
                            }
                        }
                    }
                }
                assert forall|i: int| 0 <= i < synthetic@.len() implies is_synthetic(#[trigger] synthetic@[i]) by {
                    if i < old(synthetic)@.len() {
                        assert(synthetic@[i] == old(synthetic)@[i]);
                    }
                }
            }
        },
        ast::MessageField::Group(g) => {
            let (nested_fields, nested_messages, oneofs) = build_message_body(syntax, &g.body);
            let m = Message { ast: MessageSource::Group(g), fields: nested_fields, messages: nested_messages, oneofs };
            let ghost m0 = messages@;
            proof {
                assert(built(syntax, m));
            }
            messages.push(m);
            proof {
                lemma_push_message(fields@, m0, explicit@, synthetic@, m);
                lemma_push_built(syntax, m0, m);
            }
            let ghost f0 = fields@;
            fields.push(Field { ast: FieldSource::Group(g), oneof_index, is_synthetic_oneof: false });
            proof {
                assert forall|i: int| 0 <= i < fields@.len() && (#[trigger] fields@[i]).is_synthetic_oneof implies (fields@[i].ast matches FieldSource::Field(h)
                    && fields@[i].oneof_index matches Some(k) && k < synthetic@.len() && synthetic@[k as int].ast
                    == OneofSource::Field(h)) by {
                    if i < f0.len() {
                        assert(fields@[i] == f0[i]);
                    }
                }
            }
        },
        ast::MessageField::MapField(map) => {
            let entry_fields = vec![
                Field { ast: FieldSource::MapKey(map.key_ty, map.key_ty_span), oneof_index: None, is_synthetic_oneof: false },
                Field { ast: FieldSource::MapValue(&map.ty, map.ty_span), oneof_index: None, is_synthetic_oneof: false },
            ];
            let m = Message { ast: MessageSource::MapField(map), fields: entry_fields, messages: Vec::new(), oneofs: Vec::new() };
            let ghost m0 = messages@;
            proof {
                assert(message_ok(m));
                assert(m.fields@ =~= seq![
                    Field { ast: FieldSource::MapKey(map.key_ty, map.key_ty_span), oneof_index: None, is_synthetic_oneof: false },
                    Field { ast: FieldSource::MapValue(&map.ty, map.ty_span), oneof_index: None, is_synthetic_oneof: false },
                ]);
                assert(built(syntax, m));
            }
            messages.push(m);
            proof {
                lemma_push_message(fields@, m0, explicit@, synthetic@, m);
                lemma_push_built(syntax, m0, m);
            }
            let ghost f0 = fields@;
            fields.push(Field { ast: FieldSource::MapField(map), oneof_index, is_synthetic_oneof: false });
            proof {
                assert forall|i: int| 0 <= i < fields@.len() && (#[trigger] fields@[i]).is_synthetic_oneof implies (fields@[i].ast matches FieldSource::Field(h)
                    && fields@[i].oneof_index matches Some(k) && k < synthetic@.len() && synthetic@[k as int].ast
                    == OneofSource::Field(h)) by {
                    if i < f0.len() {
                        assert(fields@[i] == f0[i]);
                    }
                }
            }
        },
        ast::MessageField::Oneof(oneof) => {
            if oneof_index.is_none() {
                build_oneof(syntax, oneof, fields, messages, explicit, synthetic);
            }
        },
    }
}

fn build_oneof<'a>(
    syntax: ast::Syntax,
    oneof: &'a ast::Oneof,
    fields: &mut Vec<Field<'a>>,
    messages: &mut Vec<Message<'a>>,
    explicit: &mut Vec<Oneof<'a>>,
    synthetic: &mut Vec<Oneof<'a>>,
)
    requires
        parts_ok(old(fields)@, old(messages)@, old(explicit)@, old(synthetic)@),
        messages_built(syntax, old(messages)@),
    ensures
        parts_ok(final(fields)@, final(messages)@, final(explicit)@, final(synthetic)@),
        messages_built(syntax, final(messages)@),
        (final(fields)@, final(explicit)@, final(synthetic)@, sources(final(messages)@)) == oneof_step(
            syntax,
            oneof,
            (old(fields)@, old(explicit)@, old(synthetic)@, sources(old(messages)@)),
        ),
    decreases oneof,
{
    let ghost st0 = (fields@, explicit@, synthetic@, sources(messages@));
    let oneof_index = Some(explicit.len());
    let mut i: usize = 0;
    while i < oneof.fields.len()
        invariant
            i <= oneof.fields@.len(),
            parts_ok(fields@, messages@, explicit@, synthetic@),
            messages_built(syntax, messages@),
            oneof_index == Some(st0.1.len() as usize),
            (fields@, explicit@, synthetic@, sources(messages@)) == members_step(syntax, oneof, i as int, oneof_index, st0),
        decreases oneof.fields@.len() - i,
    {
        build_field(syntax, &oneof.fields[i], fields, messages, explicit, synthetic, oneof_index);
        i = i + 1;
    }
    let ghost e0 = explicit@;
    explicit.push(Oneof { ast: OneofSource::Oneof(oneof) });
    proof {
        assert forall|i: int| 0 <= i < explicit@.len() implies !is_synthetic(#[trigger] explicit@[i]) by {
            if i < e0.len() {
                assert(explicit@[i] == e0[i]);
            }
        }
    }
}

fn build_extend<'a>(syntax: ast::Syntax, ast: &'a ast::Extend, messages: &mut Vec<Message<'a>>)
    requires
        messages_ok(old(messages)@),
        messages_built(syntax, old(messages)@),
    ensures
        messages_ok(final(messages)@),
        messages_built(syntax, final(messages)@),
        sources(final(messages)@) == sources(old(messages)@) + extend_sources(ast, ast.fields@.len() as int),
    decreases ast,
{
    let mut i: usize = 0;
    proof {
        assert(sources(messages@) =~= sources(old(messages)@) + extend_sources(ast, 0));
    }
    while i < ast.fields.len()
        invariant
            i <= ast.fields@.len(),
            messages_ok(messages@),
            messages_built(syntax, messages@),
            sources(messages@) == sources(old(messages)@) + extend_sources(ast, i as int),
        decreases ast.fields@.len() - i,
    {
        let ghost m_before = messages@;
        match &ast.fields[i] {
            ast::MessageField::Group(g) => {
                let (fields, nested_messages, oneofs) = build_message_body(syntax, &g.body);
                let m = Message { ast: MessageSource::Group(g), fields, messages: nested_messages, oneofs };
                let ghost m0 = messages@;
                proof {
                    assert(built(syntax, m));
                }
                messages.push(m);
                proof {
                    lemma_push_message(Seq::empty(), m0, Seq::empty(), Seq::empty(), m);
                    lemma_push_built(syntax, m0, m);
                }
            },
            _ => {},
        }
        proof {
            assert(sources(messages@) =~= sources(old(messages)@) + extend_sources(ast, i + 1));
        }
        i = i + 1;
    }
}

} // verus!
