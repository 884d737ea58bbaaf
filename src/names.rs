//! The name map: every fully-qualified name a file can see, with what it
//! names, where it was declared and whether it is re-exported.
use vstd::prelude::*;

use crate::ast::Span;
use crate::text::{absolute_name, join, join_name, lemma_parent_scope_shorter, parent_scope, parent_scope_of};
use crate::types::{
    DescriptorProto, EnumDescriptorProto, FieldDescriptorProto, FileDescriptorProto, Label,
    ServiceDescriptorProto, Type,
};

verus! {

/// What a fully-qualified name stands for.
#[derive(Debug)]
pub enum DefinitionKind {
    Package,
    Message,
    Enum,
    EnumValue { number: i32 },
    Group,
    Oneof,
    Field {
        number: i32,
        ty: Option<Type>,
        type_ref: Option<String>,
        label: Option<Label>,
        oneof_index: Option<i32>,
        extendee: Option<String>,
    },
    Service,
    Method,
}

pub(crate) fn copy_string_option(s: &Option<String>) -> (r: Option<String>)
    ensures
        r == *s,
{
    match s {
        Some(v) => Some(v.clone()),
        None => None,
    }
}

impl Clone for DefinitionKind {
    fn clone(&self) -> (r: Self)
        ensures
            r == *self,
    {
        match self {
            DefinitionKind::Package => DefinitionKind::Package,
            DefinitionKind::Message => DefinitionKind::Message,
            DefinitionKind::Enum => DefinitionKind::Enum,
            DefinitionKind::EnumValue { number } => DefinitionKind::EnumValue { number: *number },
            DefinitionKind::Group => DefinitionKind::Group,
            DefinitionKind::Oneof => DefinitionKind::Oneof,
            DefinitionKind::Field { number, ty, type_ref, label, oneof_index, extendee } => {
                DefinitionKind::Field {
                    number: *number,
                    ty: *ty,
                    type_ref: copy_string_option(type_ref),
                    label: *label,
                    oneof_index: *oneof_index,
                    extendee: copy_string_option(extendee),
                }
            },
            DefinitionKind::Service => DefinitionKind::Service,
            DefinitionKind::Method => DefinitionKind::Method,
        }
    }
}

/// One definition: what it is, where it was declared, whether importers of
/// this file see it, and the file it was imported through, if any.
#[derive(Debug)]
pub struct Entry {
    pub kind: DefinitionKind,
    pub span: Option<Span>,
    pub public: bool,
    pub file: Option<String>,
}

impl Clone for Entry {
    fn clone(&self) -> (r: Self)
        ensures
            r == *self,
    {
        Entry {
            kind: self.kind.clone(),
            span: self.span,
            public: self.public,
            file: copy_string_option(&self.file),
        }
    }
}

/// Where one side of a duplicate name was declared.
#[derive(Debug)]
pub enum NameLocation {
    Import(String),
    Root(Span),
    Unknown,
}

pub open spec fn location(file: Option<String>, span: Option<Span>) -> NameLocation {
    match file {
        Some(f) => NameLocation::Import(f),
        None => match span {
            Some(s) => NameLocation::Root(s),
            None => NameLocation::Unknown,
        },
    }
}

impl NameLocation {
    /// A name imported from another file is located by that file, a local
    /// one by its span.
    pub fn new(file: Option<String>, span: Option<Span>) -> (r: NameLocation)
        ensures
            r == location(file, span),
    {
        match file {
            Some(f) => NameLocation::Import(f),
            None => match span {
                Some(s) => NameLocation::Root(s),
                None => NameLocation::Unknown,
            },
        }
    }
}

/// A name declared twice, with the location of each declaration.
#[derive(Debug)]
pub struct DuplicateNameError {
    pub name: String,
    pub first: NameLocation,
    pub second: NameLocation,
}

/// A label of a diagnostic: its text and the span it points at.
#[derive(Debug)]
pub struct SpanLabel {
    pub text: String,
    pub span: Span,
}

pub open spec fn quoted(s: Seq<char>) -> Seq<char> {
    "'"@ + s + "'"@
}

/// The message of a duplicate: where both sides came from imports, it
/// names both files; where only the first did, that file.
pub open spec fn duplicate_message(e: DuplicateNameError) -> Seq<char> {
    match (e.first, e.second) {
        (NameLocation::Import(a), NameLocation::Import(b)) => "name "@ + quoted(e.name@)
            + " is defined both in imported file "@ + quoted(a@) + " and "@ + quoted(b@),
        (NameLocation::Import(a), _) => "name "@ + quoted(e.name@)
            + " is already defined in imported file "@ + quoted(a@),
        _ => "name "@ + quoted(e.name@) + " is defined twice"@,
    }
}

fn push_quoted(r: &mut String, s: &str)
    ensures
        final(r)@ == old(r)@ + quoted(s@),
{
    r.append("'");
    r.append(s);
    r.append("'");
}

impl DuplicateNameError {
    pub fn message(&self) -> (r: String)
        ensures
            r@ == duplicate_message(*self),
    {
        let mut r = String::from_str("name ");
        push_quoted(&mut r, self.name.as_str());
        match (&self.first, &self.second) {
            (NameLocation::Import(a), NameLocation::Import(b)) => {
                r.append(" is defined both in imported file ");
                push_quoted(&mut r, a.as_str());
                r.append(" and ");
                push_quoted(&mut r, b.as_str());
            },
            (NameLocation::Import(a), _) => {
                r.append(" is already defined in imported file ");
                push_quoted(&mut r, a.as_str());
            },
            _ => {
                r.append(" is defined twice");
            },
        }
        r
    }

    /// The spans a report of this duplicate points at: both declarations
    /// when both are in this file, the one that is when only one is, none
    /// when both came from imports.
    pub fn labels(&self) -> (r: Vec<SpanLabel>)
        ensures
            match (self.first, self.second) {
                (NameLocation::Root(a), NameLocation::Root(b)) => r@.len() == 2 && r@[0].span == a
                    && r@[0].text@ == "first defined here…"@ && r@[1].span == b && r@[1].text@
                    == "…and defined again here"@,
                (_, NameLocation::Root(s)) => r@.len() == 1 && r@[0].span == s && r@[0].text@
                    == "defined here"@,
                (NameLocation::Root(s), _) => r@.len() == 1 && r@[0].span == s && r@[0].text@
                    == "defined here"@,
                _ => r@.len() == 0,
            },
    {
        let mut r: Vec<SpanLabel> = Vec::new();
        match (&self.first, &self.second) {
            (NameLocation::Root(a), NameLocation::Root(b)) => {
                r.push(SpanLabel { text: String::from_str("first defined here…"), span: *a });
                r.push(SpanLabel { text: String::from_str("…and defined again here"), span: *b });
            },
            (_, NameLocation::Root(s)) => {
                r.push(SpanLabel { text: String::from_str("defined here"), span: *s });
            },
            (NameLocation::Root(s), _) => {
                r.push(SpanLabel { text: String::from_str("defined here"), span: *s });
            },
            _ => {},
        }
        r
    }
}

/// The map an entry sequence stands for: each key with its entry.
pub open spec fn map_of(s: Seq<(String, Entry)>) -> Map<Seq<char>, Entry>
    decreases s.len(),
{
    if s.len() == 0 {
        Map::empty()
    } else {
        map_of(s.drop_last()).insert(s.last().0@, s.last().1)
    }
}

pub open spec fn keys_unique(s: Seq<(String, Entry)>) -> bool {
    forall|i: int, j: int| 0 <= i < j < s.len() ==> s[i].0@ != s[j].0@
}

proof fn lemma_map_of(s: Seq<(String, Entry)>)
    requires
        keys_unique(s),
    ensures
        forall|i: int|
            0 <= i < s.len() ==> map_of(s).contains_key(#[trigger] s[i].0@) && map_of(s)[s[i].0@]
                == s[i].1,
        forall|k: Seq<char>|
            #[trigger] map_of(s).contains_key(k) ==> exists|i: int| 0 <= i < s.len() && s[i].0@ == k,
    decreases s.len(),
{
    if s.len() > 0 {
        let t = s.drop_last();
        assert(keys_unique(t));
        lemma_map_of(t);
        assert forall|i: int| 0 <= i < s.len() implies map_of(s).contains_key(#[trigger] s[i].0@)
            && map_of(s)[s[i].0@] == s[i].1 by {
            if i < s.len() - 1 {
                assert(t[i] == s[i]);
            }
        }
        assert forall|k: Seq<char>| #[trigger] map_of(s).contains_key(k) implies exists|i: int|
            0 <= i < s.len() && s[i].0@ == k by {
            if k != s.last().0@ {
                assert(map_of(t).contains_key(k));
                let j = choose|j: int| 0 <= j < t.len() && t[j].0@ == k;
                assert(s[j] == t[j]);
            } else {
                assert(s[s.len() - 1].0@ == k);
            }
        }
    }
}

/// A flat map from fully-qualified name (without a leading dot) to the
/// definition it stands for. Each name appears once.
#[derive(Debug)]
pub struct NameMap {
    entries: Vec<(String, Entry)>,
}

impl View for NameMap {
    type V = Map<Seq<char>, Entry>;

    closed spec fn view(&self) -> Map<Seq<char>, Entry> {
        map_of(self.entries@)
    }
}

/// The map after adding `entry` under `name`: a name already present keeps
/// its first entry.
pub open spec fn add_spec(m: Map<Seq<char>, Entry>, name: Seq<char>, entry: Entry) -> Map<
    Seq<char>,
    Entry,
> {
    if m.contains_key(name) {
        m
    } else {
        m.insert(name, entry)
    }
}

/// Adding `kind` under `name` clashes with what is there, unless both are
/// packages.
pub open spec fn is_duplicate(m: Map<Seq<char>, Entry>, name: Seq<char>, kind: DefinitionKind) -> bool {
    m.contains_key(name) && !(m[name].kind is Package && kind is Package)
}

/// The outcome of looking up `name` from `scope`: the absolute name found
/// and what it names. A name with a leading dot is looked up as written;
/// any other is tried in `scope`, then in each enclosing scope out to the
/// root, and the first hit wins.
pub open spec fn resolve_spec(m: Map<Seq<char>, Entry>, scope: Seq<char>, name: Seq<char>) -> Option<
    (Seq<char>, DefinitionKind),
> {
    if name.len() > 0 && name[0] == '.' {
        let abs = name.subrange(1, name.len() as int);
        if m.contains_key(abs) {
            Some((name, m[abs].kind))
        } else {
            None
        }
    } else {
        resolve_in(m, scope, name)
    }
}

pub open spec fn resolve_in(m: Map<Seq<char>, Entry>, scope: Seq<char>, name: Seq<char>) -> Option<
    (Seq<char>, DefinitionKind),
>
    decreases scope.len(),
    via resolve_in_decreases
{
    let full = join(scope, name);
    if m.contains_key(full) {
        Some((seq!['.'] + full, m[full].kind))
    } else if scope.len() == 0 {
        None
    } else {
        resolve_in(m, parent_scope(scope), name)
    }
}

#[via_fn]
proof fn resolve_in_decreases(m: Map<Seq<char>, Entry>, scope: Seq<char>, name: Seq<char>) {
    if scope.len() > 0 {
        lemma_parent_scope_shorter(scope);
    }
}

/// The map after merging the public entries of `other`, imported through
/// `file`: names already present keep their entries; the others arrive
/// marked with `file` and re-exported only when the import is public.
pub open spec fn merge_spec(
    m: Map<Seq<char>, Entry>,
    other: Map<Seq<char>, Entry>,
    file: String,
    public: bool,
) -> Map<Seq<char>, Entry> {
    Map::new(
        |k: Seq<char>| m.contains_key(k) || (other.contains_key(k) && other[k].public),
        |k: Seq<char>|
            if m.contains_key(k) {
                m[k]
            } else {
                Entry { kind: other[k].kind, span: other[k].span, public, file: Some(file) }
            },
    )
}

/// A public name of `other` that clashes with one already in `m`.
pub open spec fn is_merge_duplicate(
    m: Map<Seq<char>, Entry>,
    other: Map<Seq<char>, Entry>,
    name: Seq<char>,
) -> bool {
    other.contains_key(name) && other[name].public && is_duplicate(m, name, other[name].kind)
}

/// The scopes a relative name is tried in, innermost first: `scope`, then
/// each enclosing scope, ending at the root.
pub open spec fn scope_chain(scope: Seq<char>) -> Seq<Seq<char>>
    decreases scope.len(),
    via scope_chain_decreases
{
    if scope.len() == 0 {
        seq![scope]
    } else {
        seq![scope] + scope_chain(parent_scope(scope))
    }
}

#[via_fn]
proof fn scope_chain_decreases(scope: Seq<char>) {
    if scope.len() > 0 {
        lemma_parent_scope_shorter(scope);
    }
}

/// A relative name resolves to the first candidate `scope.name`, walking the
/// scope chain outward, that the map holds; it resolves to nothing exactly
/// when no candidate is held.
pub proof fn lemma_resolve_first_hit(m: Map<Seq<char>, Entry>, scope: Seq<char>, name: Seq<char>)
    requires
        !(name.len() > 0 && name[0] == '.'),
    ensures
        match resolve_spec(m, scope, name) {
            Some((abs, kind)) => exists|i: int|
                0 <= i < scope_chain(scope).len() && m.contains_key(
                    join(#[trigger] scope_chain(scope)[i], name),
                ) && abs == seq!['.'] + join(scope_chain(scope)[i], name) && kind == m[join(
                    scope_chain(scope)[i],
                    name,
                )].kind && forall|j: int|
                    0 <= j < i ==> !m.contains_key(join(#[trigger] scope_chain(scope)[j], name)),
            None => forall|i: int|
                0 <= i < scope_chain(scope).len() ==> !m.contains_key(
                    join(#[trigger] scope_chain(scope)[i], name),
                ),
        },
    decreases scope.len(),
{
    let chain = scope_chain(scope);
    if m.contains_key(join(scope, name)) {
        assert(chain[0] == scope);
    } else if scope.len() == 0 {
        assert(chain =~= seq![scope]);
    } else {
        lemma_parent_scope_shorter(scope);
        let rest = scope_chain(parent_scope(scope));
        lemma_resolve_first_hit(m, parent_scope(scope), name);
        assert(chain =~= seq![scope] + rest);
        match resolve_spec(m, scope, name) {
            Some((abs, kind)) => {
                let i = choose|i: int|
                    0 <= i < rest.len() && m.contains_key(join(#[trigger] rest[i], name)) && abs
                        == seq!['.'] + join(rest[i], name) && kind == m[join(rest[i], name)].kind
                        && forall|j: int| 0 <= j < i ==> !m.contains_key(join(#[trigger] rest[j], name));
                assert(chain[i + 1] == rest[i]);
                assert forall|j: int| 0 <= j < i + 1 implies !m.contains_key(
                    join(#[trigger] chain[j], name),
                ) by {
                    if j > 0 {
                        assert(chain[j] == rest[j - 1]);
                    }
                }
            },
            None => {
                assert forall|i: int| 0 <= i < chain.len() implies !m.contains_key(
                    join(#[trigger] chain[i], name),
                ) by {
                    if i > 0 {
                        assert(chain[i] == rest[i - 1]);
                    }
                }
            },
        }
    }
}

/// A name declared as `scope.name` resolves from `scope` to itself, with its
/// absolute name and the kind it was declared with.
pub proof fn lemma_resolve_declared(m: Map<Seq<char>, Entry>, scope: Seq<char>, name: Seq<char>)
    requires
        name.len() > 0,
        name[0] != '.',
        m.contains_key(join(scope, name)),
    ensures
        resolve_spec(m, scope, name) == Some((seq!['.'] + join(scope, name), m[join(scope, name)].kind)),
{
}

/// Declaring one name twice, in either order and whichever side came from an
/// import, is reported once: the first declaration goes in, the second is the
/// duplicate, and the report names the first location and then the second.
pub proof fn lemma_duplicate_reported_once(
    m: Map<Seq<char>, Entry>,
    name: Seq<char>,
    first: Entry,
    second: Entry,
)
    requires
        !m.contains_key(name),
        !(first.kind is Package && second.kind is Package),
    ensures
        !is_duplicate(m, name, first.kind),
        is_duplicate(add_spec(m, name, first), name, second.kind),
        add_spec(add_spec(m, name, first), name, second) == add_spec(m, name, first),
        location(add_spec(m, name, first)[name].file, add_spec(m, name, first)[name].span)
            == location(first.file, first.span),
        !is_duplicate(m, name, second.kind),
        is_duplicate(add_spec(m, name, second), name, first.kind),
{
}

/// Names travel along public imports only. When file B imports C and file A
/// imports B, a public name of C that neither B nor A declares is visible in
/// A exactly when B imports C publicly, and A passes it on to its own
/// importers exactly when A imports B publicly too.
pub proof fn lemma_visibility_chain(
    c: Map<Seq<char>, Entry>,
    b: Map<Seq<char>, Entry>,
    a: Map<Seq<char>, Entry>,
    c_file: String,
    b_file: String,
    c_public: bool,
    b_public: bool,
    name: Seq<char>,
)
    requires
        c.contains_key(name),
        c[name].public,
        !b.contains_key(name),
        !a.contains_key(name),
    ensures
        merge_spec(a, merge_spec(b, c, c_file, c_public), b_file, b_public).contains_key(name)
            == c_public,
        c_public ==> merge_spec(a, merge_spec(b, c, c_file, c_public), b_file, b_public)[name].public
            == b_public,
        c_public ==> merge_spec(a, merge_spec(b, c, c_file, c_public), b_file, b_public)[name].kind
            == c[name].kind,
{
}

impl NameMap {
    #[verifier::type_invariant]
    closed spec fn inv(&self) -> bool {
        keys_unique(self.entries@)
    }

    pub fn new() -> (r: NameMap)
        ensures
            r@ == Map::<Seq<char>, Entry>::empty(),
    {
        NameMap { entries: Vec::new() }
    }

    fn find(&self, name: &String) -> (r: Option<usize>)
        ensures
            match r {
                Some(i) => i < self.entries@.len() && self@.contains_key(name@) && self@[name@]
                    == self.entries@[i as int].1,
                None => !self@.contains_key(name@),
            },
    {
        proof {
            use_type_invariant(self);
            lemma_map_of(self.entries@);
        }
        let mut i: usize = 0;
        while i < self.entries.len()
            invariant
                i <= self.entries@.len(),
                forall|j: int| 0 <= j < i ==> self.entries@[j].0@ != name@,
            decreases self.entries@.len() - i,
        {
            if self.entries[i].0 == *name {
                proof {
                    use_type_invariant(self);
                    lemma_map_of(self.entries@);
                    assert(self.entries@[i as int].0@ == name@);
                }
                return Some(i);
            }
            i = i + 1;
        }
        proof {
            use_type_invariant(self);
            lemma_map_of(self.entries@);
        }
        None
    }

    /// What `name` (fully qualified, without a leading dot) stands for.
    pub fn get(&self, name: &String) -> (r: Option<&DefinitionKind>)
        ensures
            match r {
                Some(k) => self@.contains_key(name@) && *k == self@[name@].kind,
                None => !self@.contains_key(name@),
            },
    {
        match self.find(name) {
            Some(i) => Some(&self.entries[i].1.kind),
            None => None,
        }
    }

    /// Adds a definition. A name already present is left as it is: two
    /// packages of one name coalesce, anything else is a duplicate that
    /// names both declarations.
    pub fn add(
        &mut self,
        name: String,
        kind: DefinitionKind,
        span: Option<Span>,
        file: Option<String>,
        public: bool,
    ) -> (r: Result<(), DuplicateNameError>)
        ensures
            final(self)@ == add_spec(old(self)@, name@, Entry { kind, span, public, file }),
            r is Err <==> is_duplicate(old(self)@, name@, kind),
            r matches Err(e) ==> e.name@ == name@ && e.first == location(
                old(self)@[name@].file,
                old(self)@[name@].span,
            ) && e.second == location(file, span),
    {
        proof {
            use_type_invariant(&*self);
        }
        match self.find(&name) {
            None => {
                let mut entries = Vec::new();
                std::mem::swap(&mut entries, &mut self.entries);
                let ghost before = entries@;
                entries.push((name, Entry { kind, span, public, file }));
                proof {
                    assert(entries@.drop_last() == before);
                    lemma_map_of(before);
                    assert forall|i: int, j: int|
                        0 <= i < j < entries@.len() implies entries@[i].0@ != entries@[j].0@ by {
                        if j == entries@.len() - 1 {
                            assert(map_of(before).contains_key(before[i].0@));
                        } else {
                            assert(before[i] == entries@[i] && before[j] == entries@[j]);
                        }
                    }
                }
                self.entries = entries;
                Ok(())
            },
            Some(i) => {
                let existing = &self.entries[i].1;
                if matches!(kind, DefinitionKind::Package) && matches!(existing.kind, DefinitionKind::Package) {
                    Ok(())
                } else {
                    let first = NameLocation::new(copy_string_option(&existing.file), existing.span);
                    let second = NameLocation::new(file, span);
                    Err(DuplicateNameError { name, first, second })
                }
            },
        }
    }

    /// Merges the public names of an imported file's map into this one,
    /// reporting each clash once, with both locations.
    pub fn merge(&mut self, other: &NameMap, file: &String, public: bool) -> (errors: Vec<
        DuplicateNameError,
    >)
        ensures
            final(self)@ == merge_spec(old(self)@, other@, *file, public),
            forall|j: int|
                0 <= j < errors@.len() ==> is_merge_duplicate(
                    old(self)@,
                    other@,
                    #[trigger] errors@[j].name@,
                ) && errors@[j].first == location(
                    old(self)@[errors@[j].name@].file,
                    old(self)@[errors@[j].name@].span,
                ) && errors@[j].second == NameLocation::Import(*file),
            forall|k: Seq<char>|
                #[trigger] is_merge_duplicate(old(self)@, other@, k) ==> exists|j: int|
                    0 <= j < errors@.len() && errors@[j].name@ == k,
            forall|a: int, b: int| 0 <= a < b < errors@.len() ==> errors@[a].name@ != errors@[b].name@,
    {
        proof {
            use_type_invariant(other);
        }
        let ghost m0 = self@;
        let mut errors: Vec<DuplicateNameError> = Vec::new();
        let mut i: usize = 0;
        assert(map_of(other.entries@.take(0)) =~= Map::<Seq<char>, Entry>::empty());
        assert(merge_spec(m0, Map::empty(), *file, public) =~= m0);
        while i < other.entries.len()
            invariant
                i <= other.entries@.len(),
                keys_unique(other.entries@),
                self@ == merge_spec(m0, map_of(other.entries@.take(i as int)), *file, public),
                forall|j: int|
                    0 <= j < errors@.len() ==> is_merge_duplicate(
                        m0,
                        map_of(other.entries@.take(i as int)),
                        #[trigger] errors@[j].name@,
                    ) && errors@[j].first == location(
                        m0[errors@[j].name@].file,
                        m0[errors@[j].name@].span,
                    ) && errors@[j].second == NameLocation::Import(*file),
                forall|k: Seq<char>|
                    #[trigger] is_merge_duplicate(m0, map_of(other.entries@.take(i as int)), k)
                        ==> exists|j: int| 0 <= j < errors@.len() && errors@[j].name@ == k,
                forall|a: int, b: int|
                    0 <= a < b < errors@.len() ==> errors@[a].name@ != errors@[b].name@,
            decreases other.entries@.len() - i,
        {
            let ghost pre = other.entries@.take(i as int);
            let ghost post = other.entries@.take(i + 1);
            let ghost errs0 = errors@;
            let name = &other.entries[i].0;
            let entry = &other.entries[i].1;
            proof {
                assert(post.drop_last() =~= pre);
                assert(post.last() == other.entries@[i as int]);
                assert(map_of(post) == map_of(pre).insert(name@, *entry));
                assert(keys_unique(pre));
                lemma_map_of(pre);
                if map_of(pre).contains_key(name@) {
                    let j = choose|j: int| 0 <= j < pre.len() && pre[j].0@ == name@;
                    assert(pre[j] == other.entries@[j]);
                }
                assert(!map_of(pre).contains_key(name@));
            }
            if entry.public {
                let r = self.add(name.clone(), entry.kind.clone(), entry.span, Some(file.clone()), public);
                proof {
                    assert(self@ =~= merge_spec(m0, map_of(post), *file, public));
                }
                match r {
                    Ok(()) => {
                        proof {
                            assert forall|k: Seq<char>|
                                #[trigger] is_merge_duplicate(m0, map_of(post), k) implies exists|j: int|
                                    0 <= j < errors@.len() && errors@[j].name@ == k by {
                                assert(is_merge_duplicate(m0, map_of(pre), k));
                            }
                            assert forall|j: int| 0 <= j < errors@.len() implies is_merge_duplicate(
                                m0, map_of(post), #[trigger] errors@[j].name@) by {
                                assert(is_merge_duplicate(m0, map_of(pre), errors@[j].name@));
                            }
                        }
                    },
                    Err(e) => {
                        errors.push(e);
                        proof {
                            assert(errors@.last().name@ == name@);
                            assert forall|k: Seq<char>|
                                #[trigger] is_merge_duplicate(m0, map_of(post), k) implies exists|j: int|
                                    0 <= j < errors@.len() && errors@[j].name@ == k by {
                                if k == name@ {
                                    assert(errors@[errors@.len() - 1].name@ == k);
                                } else {
                                    assert(is_merge_duplicate(m0, map_of(pre), k));
                                    let j = choose|j: int| 0 <= j < errs0.len() && errs0[j].name@ == k;
                                    assert(errors@[j] == errs0[j]);
                                }
                            }
                            assert forall|j: int| 0 <= j < errors@.len() implies is_merge_duplicate(
                                m0, map_of(post), #[trigger] errors@[j].name@) && errors@[j].first
                                == location(m0[errors@[j].name@].file, m0[errors@[j].name@].span)
                                && errors@[j].second == NameLocation::Import(*file) by {
                                if j < errs0.len() {
                                    assert(errors@[j] == errs0[j]);
                                    assert(is_merge_duplicate(m0, map_of(pre), errs0[j].name@));
                                }
                            }
                            assert forall|a: int, b: int|
                                0 <= a < b < errors@.len() implies errors@[a].name@ != errors@[b].name@ by {
                                if b == errors@.len() - 1 {
                                    assert(errors@[a] == errs0[a]);
                                    assert(is_merge_duplicate(m0, map_of(pre), errs0[a].name@));
                                } else {
                                    assert(errors@[a] == errs0[a] && errors@[b] == errs0[b]);
                                }
                            }
                        }
                    },
                }
            } else {
                proof {
                    assert(self@ =~= merge_spec(m0, map_of(post), *file, public));
                    assert forall|k: Seq<char>|
                        #[trigger] is_merge_duplicate(m0, map_of(post), k) implies exists|j: int|
                            0 <= j < errors@.len() && errors@[j].name@ == k by {
                        assert(is_merge_duplicate(m0, map_of(pre), k));
                    }
                    assert forall|j: int| 0 <= j < errors@.len() implies is_merge_duplicate(
                        m0, map_of(post), #[trigger] errors@[j].name@) by {
                        assert(is_merge_duplicate(m0, map_of(pre), errors@[j].name@));
                    }
                }
            }
            i = i + 1;
        }
        proof {
            assert(other.entries@.take(i as int) =~= other.entries@);
        }
        errors
    }

    /// Looks `name` up from `scope`, innermost scope first; returns the
    /// absolute name found (with its leading dot) and what it names.
    pub fn resolve(&self, scope: &str, name: &str) -> (r: Option<(String, &DefinitionKind)>)
        ensures
            match r {
                Some((abs, k)) => resolve_spec(self@, scope@, name@) == Some((abs@, *k)),
                None => resolve_spec(self@, scope@, name@) is None,
            },
    {
        let chars = crate::text::chars_of(name);
        if chars.len() > 0 && chars[0] == '.' {
            let abs = crate::text::string_from_chars(vstd::slice::slice_subrange(chars.as_slice(), 1, chars.len()));
            match self.get(&abs) {
                Some(k) => Some((String::from_str(name), k)),
                None => None,
            }
        } else {
            let mut current = String::from_str(scope);
            loop
                invariant
                    resolve_spec(self@, scope@, name@) == resolve_in(self@, current@, name@),
                    !(name@.len() > 0 && name@[0] == '.'),
                decreases current@.len(),
            {
                let full = join_name(current.as_str(), name);
                match self.get(&full) {
                    Some(k) => {
                        return Some((absolute_name(full.as_str()), k));
                    },
                    None => {},
                }
                if current.as_str().is_empty() {
                    return None;
                }
                proof {
                    lemma_parent_scope_shorter(current@);
                }
                current = parent_scope_of(current.as_str());
            }
        }
    }
}

pub open spec fn opt_name(s: Option<String>) -> Seq<char> {
    match s {
        Some(s) => s@,
        None => Seq::empty(),
    }
}

pub open spec fn opt_number(n: Option<i32>) -> i32 {
    match n {
        Some(n) => n,
        None => 0,
    }
}

/// What a field descriptor declares.
pub open spec fn field_kind(f: FieldDescriptorProto) -> DefinitionKind {
    DefinitionKind::Field {
        number: opt_number(f.number),
        ty: f.ty,
        type_ref: f.type_ref,
        label: f.label,
        oneof_index: f.oneof_index,
        extendee: f.extendee,
    }
}

/// A declaration: the scope it is made in, its local name, and its kind.
pub type Decl = (Seq<char>, Seq<char>, DefinitionKind);

pub open spec fn field_decls(scope: Seq<char>, fs: Seq<FieldDescriptorProto>) -> Seq<Decl> {
    fs.map_values(|f: FieldDescriptorProto| (scope, opt_name(f.name), field_kind(f)))
}

pub open spec fn enum_decls(scope: Seq<char>, e: EnumDescriptorProto) -> Seq<Decl> {
    seq![(scope, opt_name(e.name), DefinitionKind::Enum)] + e.value@.map_values(
        |v: crate::types::EnumValueDescriptorProto|
            (scope, opt_name(v.name), DefinitionKind::EnumValue { number: opt_number(v.number) }),
    )
}

pub open spec fn enums_decls(scope: Seq<char>, es: Seq<EnumDescriptorProto>) -> Seq<Decl>
    decreases es.len(),
{
    if es.len() == 0 {
        Seq::empty()
    } else {
        enums_decls(scope, es.drop_last()) + enum_decls(scope, es.last())
    }
}

/// Everything a message declares, itself first, in the order the first
/// pass adds them.
pub open spec fn message_decls(scope: Seq<char>, m: DescriptorProto) -> Seq<Decl>
    decreases m,
{
    let inner = join(scope, opt_name(m.name));
    seq![(scope, opt_name(m.name), DefinitionKind::Message)] + field_decls(inner, m.field@)
        + m.oneof_decl@.map_values(
        |o: crate::types::OneofDescriptorProto| (inner, opt_name(o.name), DefinitionKind::Oneof),
    ) + nested_decls(inner, m.nested_type@, m.nested_type@.len() as int) + enums_decls(
        inner,
        m.enum_type@,
    ) + field_decls(inner, m.extension@)
}

/// The declarations of the first `n` messages of `ms`.
pub open spec fn nested_decls(scope: Seq<char>, ms: Seq<DescriptorProto>, n: int) -> Seq<Decl>
    decreases ms, n,
{
    if n <= 0 || n > ms.len() {
        Seq::empty()
    } else {
        nested_decls(scope, ms, n - 1) + message_decls(scope, ms[n - 1])
    }
}

pub open spec fn service_decls(scope: Seq<char>, s: ServiceDescriptorProto) -> Seq<Decl> {
    seq![(scope, opt_name(s.name), DefinitionKind::Service)] + s.method@.map_values(
        |m: crate::types::MethodDescriptorProto|
            (join(scope, opt_name(s.name)), opt_name(m.name), DefinitionKind::Method),
    )
}

pub open spec fn services_decls(scope: Seq<char>, ss: Seq<ServiceDescriptorProto>) -> Seq<Decl>
    decreases ss.len(),
{
    if ss.len() == 0 {
        Seq::empty()
    } else {
        services_decls(scope, ss.drop_last()) + service_decls(scope, ss.last())
    }
}

/// The package and each package that encloses it, outermost first.
pub open spec fn package_decls(p: Seq<char>) -> Seq<Decl>
    decreases p.len(),
    via package_decls_decreases
{
    if p.len() == 0 {
        Seq::empty()
    } else if parent_scope(p).len() == 0 {
        seq![(Seq::empty(), p, DefinitionKind::Package)]
    } else {
        package_decls(parent_scope(p)) + seq![(Seq::empty(), p, DefinitionKind::Package)]
    }
}

#[via_fn]
proof fn package_decls_decreases(p: Seq<char>) {
    if p.len() > 0 {
        lemma_parent_scope_shorter(p);
    }
}

/// Everything a file declares: its package, then its messages, enums,
/// extensions and services with all they contain.
pub open spec fn file_decls(f: FileDescriptorProto) -> Seq<Decl> {
    let p = opt_name(f.package);
    package_decls(p) + nested_decls(p, f.message_type@, f.message_type@.len() as int)
        + enums_decls(p, f.enum_type@) + field_decls(p, f.extension@) + services_decls(
        p,
        f.service@,
    )
}

/// `b` keeps every entry of `a` as it was.
pub open spec fn extends(a: Map<Seq<char>, Entry>, b: Map<Seq<char>, Entry>) -> bool {
    forall|k: Seq<char>| #[trigger] a.contains_key(k) ==> b.contains_key(k) && b[k] == a[k]
}

/// Every declaration of `ds` has its full name in `m`.
pub open spec fn covers(m: Map<Seq<char>, Entry>, ds: Seq<Decl>) -> bool {
    forall|i: int| 0 <= i < ds.len() ==> m.contains_key(join((#[trigger] ds[i]).0, ds[i].1))
}

/// Every declaration of `ds` is in `m` with its own kind.
pub open spec fn agrees(m: Map<Seq<char>, Entry>, ds: Seq<Decl>) -> bool {
    forall|i: int| 0 <= i < ds.len() ==> m[join((#[trigger] ds[i]).0, ds[i].1)].kind == ds[i].2
}

/// One stretch of the first pass: it keeps what was there, adds the
/// declarations `ds`, and, if it reported no duplicate, with their kinds.
pub open spec fn pass_ok(
    m1: Map<Seq<char>, Entry>,
    e1: int,
    m2: Map<Seq<char>, Entry>,
    e2: int,
    ds: Seq<Decl>,
) -> bool {
    &&& extends(m1, m2)
    &&& covers(m2, ds)
    &&& (e2 == e1 ==> agrees(m2, ds))
    &&& e1 <= e2
}

proof fn lemma_pass_refl(m: Map<Seq<char>, Entry>, e: int)
    ensures
        pass_ok(m, e, m, e, Seq::empty()),
{
}

proof fn lemma_pass_trans(
    m1: Map<Seq<char>, Entry>,
    e1: int,
    m2: Map<Seq<char>, Entry>,
    e2: int,
    m3: Map<Seq<char>, Entry>,
    e3: int,
    d1: Seq<Decl>,
    d2: Seq<Decl>,
)
    requires
        pass_ok(m1, e1, m2, e2, d1),
        pass_ok(m2, e2, m3, e3, d2),
    ensures
        pass_ok(m1, e1, m3, e3, d1 + d2),
{
    let d = d1 + d2;
    assert forall|i: int| 0 <= i < d.len() implies m3.contains_key(join((#[trigger] d[i]).0, d[i].1)) by {
        if i < d1.len() {
            assert(d[i] == d1[i]);
            assert(m2.contains_key(join(d1[i].0, d1[i].1)));
        } else {
            assert(d[i] == d2[i - d1.len()]);
        }
    }
    if e3 == e1 {
        assert forall|i: int| 0 <= i < d.len() implies m3[join((#[trigger] d[i]).0, d[i].1)].kind == d[i].2 by {
            if i < d1.len() {
                assert(d[i] == d1[i]);
                assert(m2.contains_key(join(d1[i].0, d1[i].1)));
            } else {
                assert(d[i] == d2[i - d1.len()]);
            }
        }
    }
}

pub open spec fn decl_key(d: Decl) -> Seq<char> {
    join(d.0, d.1)
}

/// Some declaration of `ds` has the full name `k`.
pub open spec fn declares(ds: Seq<Decl>, k: Seq<char>) -> bool {
    exists|i: int| 0 <= i < ds.len() && decl_key(ds[i]) == k
}

/// No two declarations of `ds` share a full name.
pub open spec fn distinct_decls(ds: Seq<Decl>) -> bool {
    forall|i: int, j: int| 0 <= i < j < ds.len() ==> decl_key(ds[i]) != decl_key(ds[j])
}

/// No declaration of `ds` has a full name already in `m`.
pub open spec fn fresh(m: Map<Seq<char>, Entry>, ds: Seq<Decl>) -> bool {
    forall|i: int| 0 <= i < ds.len() ==> !m.contains_key(decl_key(ds[i]))
}

/// One stretch of the first pass adds nothing but the declarations `ds`,
/// each local and public, and reports no duplicate when they are distinct
/// and new.
pub open spec fn pass_exact(
    m1: Map<Seq<char>, Entry>,
    e1: int,
    m2: Map<Seq<char>, Entry>,
    e2: int,
    ds: Seq<Decl>,
) -> bool {
    &&& forall|k: Seq<char>| #[trigger] m2.contains_key(k) ==> m1.contains_key(k) || declares(ds, k)
    &&& forall|k: Seq<char>|
        #[trigger] m2.contains_key(k) && !m1.contains_key(k) ==> m2[k].file is None && m2[k].public
    &&& fresh(m1, ds) && distinct_decls(ds) ==> e2 == e1
}

proof fn lemma_exact_refl(m: Map<Seq<char>, Entry>, e: int)
    ensures
        pass_exact(m, e, m, e, Seq::empty()),
{
}

proof fn lemma_exact_trans(
    m1: Map<Seq<char>, Entry>,
    e1: int,
    m2: Map<Seq<char>, Entry>,
    e2: int,
    m3: Map<Seq<char>, Entry>,
    e3: int,
    d1: Seq<Decl>,
    d2: Seq<Decl>,
)
    requires
        pass_ok(m1, e1, m2, e2, d1),
        pass_ok(m2, e2, m3, e3, d2),
        pass_exact(m1, e1, m2, e2, d1),
        pass_exact(m2, e2, m3, e3, d2),
    ensures
        pass_exact(m1, e1, m3, e3, d1 + d2),
{
    let d = d1 + d2;
    assert forall|k: Seq<char>| #[trigger] m3.contains_key(k) implies m1.contains_key(k) || declares(d, k) by {
        if !m2.contains_key(k) {
            let j = choose|j: int| 0 <= j < d2.len() && decl_key(d2[j]) == k;
            assert(d[d1.len() + j] == d2[j]);
        } else if !m1.contains_key(k) {
            let j = choose|j: int| 0 <= j < d1.len() && decl_key(d1[j]) == k;
            assert(d[j] == d1[j]);
        }
    }
    assert forall|k: Seq<char>| #[trigger] m3.contains_key(k) && !m1.contains_key(k) implies m3[k].file is None
        && m3[k].public by {
        if m2.contains_key(k) {
            assert(m3[k] == m2[k]);
        }
    }
    if fresh(m1, d) && distinct_decls(d) {
        assert forall|i: int| 0 <= i < d1.len() implies !m1.contains_key(decl_key(d1[i])) by {
            assert(d[i] == d1[i]);
        }
        assert forall|i: int, j: int| 0 <= i < j < d1.len() implies decl_key(d1[i]) != decl_key(d1[j]) by {
            assert(d[i] == d1[i] && d[j] == d1[j]);
        }
        assert forall|i: int| 0 <= i < d2.len() implies !m2.contains_key(decl_key(d2[i])) by {
            assert(d[d1.len() + i] == d2[i]);
            if m2.contains_key(decl_key(d2[i])) {
                let j = choose|j: int| 0 <= j < d1.len() && decl_key(d1[j]) == decl_key(d2[i]);
                assert(d[j] == d1[j]);
            }
        }
        assert forall|i: int, j: int| 0 <= i < j < d2.len() implies decl_key(d2[i]) != decl_key(d2[j]) by {
            assert(d[d1.len() + i] == d2[i] && d[d1.len() + j] == d2[j]);
        }
    }
}

/// Each duplicate in `errs` is about a name that `m` holds, and names first
/// the declaration that `m` kept.
pub open spec fn located(m: Map<Seq<char>, Entry>, errs: Seq<DuplicateNameError>) -> bool {
    forall|i: int|
        0 <= i < errs.len() ==> m.contains_key((#[trigger] errs[i]).name@) && errs[i].first == location(
            m[errs[i].name@].file,
            m[errs[i].name@].span,
        )
}

/// A duplicate as a value: its name and the two locations.
pub open spec fn dview(e: DuplicateNameError) -> (Seq<char>, NameLocation, NameLocation) {
    (e.name@, e.first, e.second)
}

pub open spec fn dviews(s: Seq<DuplicateNameError>) -> Seq<(Seq<char>, NameLocation, NameLocation)> {
    s.map_values(|e: DuplicateNameError| dview(e))
}

/// The first pass over the declarations `ds`, one after another, from the
/// map `m`: each new name goes in, local and public; each name already
/// there (but for two packages) is reported once, naming the kept entry
/// first and this declaration, which has no location of its own, second.
pub open spec fn pass_spec(m: Map<Seq<char>, Entry>, ds: Seq<Decl>) -> (
    Map<Seq<char>, Entry>,
    Seq<(Seq<char>, NameLocation, NameLocation)>,
)
    decreases ds.len(),
{
    if ds.len() == 0 {
        (m, Seq::empty())
    } else {
        let prev = pass_spec(m, ds.drop_last());
        let k = decl_key(ds.last());
        if is_duplicate(prev.0, k, ds.last().2) {
            (prev.0, prev.1.push((k, location(prev.0[k].file, prev.0[k].span), NameLocation::Unknown)))
        } else {
            (add_spec(prev.0, k, Entry { kind: ds.last().2, span: None, public: true, file: None }), prev.1)
        }
    }
}

proof fn lemma_pass_spec_concat(m: Map<Seq<char>, Entry>, d1: Seq<Decl>, d2: Seq<Decl>)
    ensures
        pass_spec(m, d1 + d2).0 == pass_spec(pass_spec(m, d1).0, d2).0,
        pass_spec(m, d1 + d2).1 == pass_spec(m, d1).1 + pass_spec(pass_spec(m, d1).0, d2).1,
    decreases d2.len(),
{
    if d2.len() == 0 {
        assert(d1 + d2 =~= d1);
        assert(pass_spec(m, d1).1 + Seq::empty() =~= pass_spec(m, d1).1);
    } else {
        lemma_pass_spec_concat(m, d1, d2.drop_last());
        assert((d1 + d2).drop_last() =~= d1 + d2.drop_last());
        assert((d1 + d2).last() == d2.last());
        let a = pass_spec(m, d1).1;
        let b = pass_spec(pass_spec(m, d1).0, d2.drop_last()).1;
        let k = decl_key(d2.last());
        let m2 = pass_spec(pass_spec(m, d1).0, d2.drop_last()).0;
        assert((a + b).push((k, location(m2[k].file, m2[k].span), NameLocation::Unknown)) =~= a + b.push(
            (k, location(m2[k].file, m2[k].span), NameLocation::Unknown),
        ));
    }
}

/// One stretch of the first pass is the pass over `ds`: its map is that
/// pass's map, its new duplicates that pass's duplicates.
pub open spec fn pass_spec_ok(
    m1: Map<Seq<char>, Entry>,
    e1: Seq<DuplicateNameError>,
    m2: Map<Seq<char>, Entry>,
    e2: Seq<DuplicateNameError>,
    ds: Seq<Decl>,
) -> bool {
    m2 == pass_spec(m1, ds).0 && dviews(e2) == dviews(e1) + pass_spec(m1, ds).1
}

proof fn lemma_spec_refl(m: Map<Seq<char>, Entry>, e: Seq<DuplicateNameError>)
    ensures
        pass_spec_ok(m, e, m, e, Seq::empty()),
{
    assert(dviews(e) + Seq::empty() =~= dviews(e));
}

proof fn lemma_spec_trans(
    m1: Map<Seq<char>, Entry>,
    e1: Seq<DuplicateNameError>,
    m2: Map<Seq<char>, Entry>,
    e2: Seq<DuplicateNameError>,
    m3: Map<Seq<char>, Entry>,
    e3: Seq<DuplicateNameError>,
    d1: Seq<Decl>,
    d2: Seq<Decl>,
)
    requires
        pass_spec_ok(m1, e1, m2, e2, d1),
        pass_spec_ok(m2, e2, m3, e3, d2),
    ensures
        pass_spec_ok(m1, e1, m3, e3, d1 + d2),
{
    lemma_pass_spec_concat(m1, d1, d2);
    assert(dviews(e1) + pass_spec(m1, d1).1 + pass_spec(m2, d2).1 =~= dviews(e1) + (pass_spec(m1, d1).1 + pass_spec(m2, d2).1));
}

/// The state of the first pass over one file.
struct NamePass {
    name_map: NameMap,
    scope: String,
    errors: Vec<DuplicateNameError>,
}

impl NamePass {
    fn add_name(&mut self, name: &str, kind: DefinitionKind)
        ensures
            pass_ok(
                old(self).name_map@,
                old(self).errors@.len() as int,
                final(self).name_map@,
                final(self).errors@.len() as int,
                seq![(old(self).scope@, name@, kind)],
            ),
            pass_spec_ok(old(self).name_map@, old(self).errors@, final(self).name_map@, final(self).errors@, seq![(old(self).scope@, name@, kind)]),
            pass_exact(
                old(self).name_map@,
                old(self).errors@.len() as int,
                final(self).name_map@,
                final(self).errors@.len() as int,
                seq![(old(self).scope@, name@, kind)],
            ),
            final(self).scope == old(self).scope,
            located(old(self).name_map@, old(self).errors@) ==> located(final(self).name_map@, final(self).errors@),
    {
        let full_name = join_name(self.scope.as_str(), name);
        let ghost k = kind;
        let ghost key = full_name@;
        let ghost e0 = self.errors@;
        let ghost m0 = self.name_map@;
        match self.name_map.add(full_name, kind, None, None, true) {
            Ok(()) => {
                proof {
                    assert(dviews(self.errors@) =~= dviews(e0) + Seq::empty());
                }
            },
            Err(err) => {
                self.errors.push(err);
                proof {
                    assert(dviews(self.errors@) =~= dviews(e0).push(dview(err)));
                    assert(dview(err) == (key, location(m0[key].file, m0[key].span), NameLocation::Unknown));
                }
            },
        }
        proof {
            let d = seq![(old(self).scope@, name@, k)];
            assert(d[0] == (old(self).scope@, name@, k));
            assert(d.drop_last() =~= Seq::<Decl>::empty());
            assert(decl_key(d.last()) == key);
            assert(pass_spec(m0, d.drop_last()) == (m0, Seq::<(Seq<char>, NameLocation, NameLocation)>::empty()));
            if is_duplicate(m0, key, k) {
                let x = (key, location(m0[key].file, m0[key].span), NameLocation::Unknown);
                assert(pass_spec(m0, d).1 == Seq::<(Seq<char>, NameLocation, NameLocation)>::empty().push(x));
                assert(Seq::<(Seq<char>, NameLocation, NameLocation)>::empty().push(x) =~= seq![x]);
                assert(dviews(e0).push(x) =~= dviews(e0) + seq![x]);
                assert(pass_spec(m0, d).0 == m0);
            } else {
                assert(pass_spec(m0, d).1 == Seq::<(Seq<char>, NameLocation, NameLocation)>::empty());
                assert(pass_spec(m0, d).0 == add_spec(m0, key, Entry { kind: k, span: None, public: true, file: None }));
            }
        }
    }

    fn add_oneofs(&mut self, oneofs: &Vec<crate::types::OneofDescriptorProto>)
        ensures
            pass_ok(
                old(self).name_map@,
                old(self).errors@.len() as int,
                final(self).name_map@,
                final(self).errors@.len() as int,
                oneofs@.map_values(
                    |o: crate::types::OneofDescriptorProto|
                        (old(self).scope@, opt_name(o.name), DefinitionKind::Oneof),
                ),
            ),
            pass_spec_ok(old(self).name_map@, old(self).errors@, final(self).name_map@, final(self).errors@, oneofs@.map_values(
                    |o: crate::types::OneofDescriptorProto|
                        (old(self).scope@, opt_name(o.name), DefinitionKind::Oneof),
                )),
            pass_exact(
                old(self).name_map@,
                old(self).errors@.len() as int,
                final(self).name_map@,
                final(self).errors@.len() as int,
                oneofs@.map_values(
                    |o: crate::types::OneofDescriptorProto|
                        (old(self).scope@, opt_name(o.name), DefinitionKind::Oneof),
                ),
            ),
            final(self).scope == old(self).scope,
            located(old(self).name_map@, old(self).errors@) ==> located(final(self).name_map@, final(self).errors@),
    {
        let ghost scope = self.scope@;
        let mut i: usize = 0;
        proof {
            lemma_pass_refl(self.name_map@, self.errors@.len() as int);
            lemma_spec_refl(self.name_map@, self.errors@);
            lemma_exact_refl(self.name_map@, self.errors@.len() as int);
            assert(oneofs@.take(0).map_values(|o: crate::types::OneofDescriptorProto| (scope, opt_name(o.name), DefinitionKind::Oneof)) =~= Seq::<Decl>::empty());
        }
        while i < oneofs.len()
            invariant
                i <= oneofs@.len(),
                self.scope == old(self).scope,
                located(old(self).name_map@, old(self).errors@) ==> located(self.name_map@, self.errors@),
                scope == self.scope@,
                pass_ok(
                    old(self).name_map@,
                    old(self).errors@.len() as int,
                    self.name_map@,
                    self.errors@.len() as int,
                    oneofs@.take(i as int).map_values(|o: crate::types::OneofDescriptorProto| (scope, opt_name(o.name), DefinitionKind::Oneof)),
                ),
                pass_spec_ok(old(self).name_map@, old(self).errors@, self.name_map@, self.errors@, oneofs@.take(i as int).map_values(|o: crate::types::OneofDescriptorProto| (scope, opt_name(o.name), DefinitionKind::Oneof))),
                pass_exact(
                    old(self).name_map@,
                    old(self).errors@.len() as int,
                    self.name_map@,
                    self.errors@.len() as int,
                    oneofs@.take(i as int).map_values(|o: crate::types::OneofDescriptorProto| (scope, opt_name(o.name), DefinitionKind::Oneof)),
                ),
            decreases oneofs@.len() - i,
        {
            let ghost m = self.name_map@;
            let ghost e = self.errors@.len() as int;
            let ghost e_s = self.errors@;
            let name = match &oneofs[i].name {
                Some(n) => n.as_str(),
                None => "",
            };
            proof {
                reveal_strlit("");
                assert(name@ == opt_name(oneofs@[i as int].name));
            }
            self.add_name(name, DefinitionKind::Oneof);
            proof {
                let d0 = oneofs@.take(i as int).map_values(|o: crate::types::OneofDescriptorProto| (scope, opt_name(o.name), DefinitionKind::Oneof));
                lemma_pass_trans(old(self).name_map@, old(self).errors@.len() as int, m, e, self.name_map@, self.errors@.len() as int, d0, seq![(scope, name@, DefinitionKind::Oneof)]);
                lemma_spec_trans(old(self).name_map@, old(self).errors@, m, e_s, self.name_map@, self.errors@, d0, seq![(scope, name@, DefinitionKind::Oneof)]);
                lemma_exact_trans(old(self).name_map@, old(self).errors@.len() as int, m, e, self.name_map@, self.errors@.len() as int, d0, seq![(scope, name@, DefinitionKind::Oneof)]);
                assert(oneofs@.take(i + 1) =~= oneofs@.take(i as int).push(oneofs@[i as int]));
                assert(oneofs@.take(i + 1).map_values(|o: crate::types::OneofDescriptorProto| (scope, opt_name(o.name), DefinitionKind::Oneof)) =~= d0 + seq![(scope, name@, DefinitionKind::Oneof)]);
            }
            i = i + 1;
        }
        proof {
            assert(oneofs@.take(i as int) =~= oneofs@);
        }
    }

    fn add_enum(&mut self, e: &EnumDescriptorProto)
        ensures
            pass_ok(
                old(self).name_map@,
                old(self).errors@.len() as int,
                final(self).name_map@,
                final(self).errors@.len() as int,
                enum_decls(old(self).scope@, *e),
            ),
            pass_spec_ok(old(self).name_map@, old(self).errors@, final(self).name_map@, final(self).errors@, enum_decls(old(self).scope@, *e)),
            pass_exact(
                old(self).name_map@,
                old(self).errors@.len() as int,
                final(self).name_map@,
                final(self).errors@.len() as int,
                enum_decls(old(self).scope@, *e),
            ),
            final(self).scope == old(self).scope,
            located(old(self).name_map@, old(self).errors@) ==> located(final(self).name_map@, final(self).errors@),
    {
        let ghost scope = self.scope@;
        let name = match &e.name {
            Some(n) => n.as_str(),
            None => "",
        };
        proof {
            reveal_strlit("");
        }
        self.add_name(name, DefinitionKind::Enum);
        let ghost m1 = self.name_map@;
        let ghost e1 = self.errors@.len() as int;
        let ghost e1_s = self.errors@;
        let ghost d1 = seq![(scope, name@, DefinitionKind::Enum)];
        let mut i: usize = 0;
        proof {
            lemma_pass_refl(self.name_map@, self.errors@.len() as int);
            lemma_spec_refl(self.name_map@, self.errors@);
            lemma_exact_refl(self.name_map@, self.errors@.len() as int);
        }
        while i < e.value.len()
            invariant
                i <= e.value@.len(),
                self.scope == old(self).scope,
                located(old(self).name_map@, old(self).errors@) ==> located(self.name_map@, self.errors@),
                scope == self.scope@,
                pass_ok(m1, e1, self.name_map@, self.errors@.len() as int,
                    e.value@.take(i as int).map_values(|v: crate::types::EnumValueDescriptorProto|
                        (scope, opt_name(v.name), DefinitionKind::EnumValue { number: opt_number(v.number) }))),
                pass_spec_ok(m1, e1_s, self.name_map@, self.errors@, e.value@.take(i as int).map_values(|v: crate::types::EnumValueDescriptorProto|
                        (scope, opt_name(v.name), DefinitionKind::EnumValue { number: opt_number(v.number) }))),
                pass_exact(m1, e1, self.name_map@, self.errors@.len() as int,
                    e.value@.take(i as int).map_values(|v: crate::types::EnumValueDescriptorProto|
                        (scope, opt_name(v.name), DefinitionKind::EnumValue { number: opt_number(v.number) }))),
            decreases e.value@.len() - i,
        {
            let ghost m = self.name_map@;
            let ghost er = self.errors@.len() as int;
            let ghost er_s = self.errors@;
            let v = &e.value[i];
            let vname = match &v.name {
                Some(n) => n.as_str(),
                None => "",
            };
            let number = match v.number {
                Some(n) => n,
                None => 0,
            };
            proof {
                reveal_strlit("");
                assert(vname@ == opt_name(v.name));
            }
            self.add_name(vname, DefinitionKind::EnumValue { number });
            proof {
                let f = |v: crate::types::EnumValueDescriptorProto| (scope, opt_name(v.name), DefinitionKind::EnumValue { number: opt_number(v.number) });
                let d0 = e.value@.take(i as int).map_values(f);
                lemma_pass_trans(m1, e1, m, er, self.name_map@, self.errors@.len() as int, d0, seq![(scope, vname@, DefinitionKind::EnumValue { number })]);
                lemma_spec_trans(m1, e1_s, m, er_s, self.name_map@, self.errors@, d0, seq![(scope, vname@, DefinitionKind::EnumValue { number })]);
                lemma_exact_trans(m1, e1, m, er, self.name_map@, self.errors@.len() as int, d0, seq![(scope, vname@, DefinitionKind::EnumValue { number })]);
                assert(e.value@.take(i + 1) =~= e.value@.take(i as int).push(e.value@[i as int]));
                assert(e.value@.take(i + 1).map_values(f) =~= d0 + seq![(scope, vname@, DefinitionKind::EnumValue { number })]);
            }
            i = i + 1;
        }
        proof {
            assert(e.value@.take(i as int) =~= e.value@);
            assert(name@ == opt_name(e.name));
            lemma_pass_trans(old(self).name_map@, old(self).errors@.len() as int, m1, e1, self.name_map@, self.errors@.len() as int, d1,
                e.value@.map_values(|v: crate::types::EnumValueDescriptorProto| (scope, opt_name(v.name), DefinitionKind::EnumValue { number: opt_number(v.number) })));
            lemma_spec_trans(old(self).name_map@, old(self).errors@, m1, e1_s, self.name_map@, self.errors@, d1, e.value@.map_values(|v: crate::types::EnumValueDescriptorProto| (scope, opt_name(v.name), DefinitionKind::EnumValue { number: opt_number(v.number) })));
            lemma_exact_trans(old(self).name_map@, old(self).errors@.len() as int, m1, e1, self.name_map@, self.errors@.len() as int, d1,
                e.value@.map_values(|v: crate::types::EnumValueDescriptorProto| (scope, opt_name(v.name), DefinitionKind::EnumValue { number: opt_number(v.number) })));
            assert(enum_decls(scope, *e) == d1 + e.value@.map_values(|v: crate::types::EnumValueDescriptorProto| (scope, opt_name(v.name), DefinitionKind::EnumValue { number: opt_number(v.number) })));
        }
    }

    fn add_enums(&mut self, es: &Vec<EnumDescriptorProto>)
        ensures
            pass_ok(
                old(self).name_map@,
                old(self).errors@.len() as int,
                final(self).name_map@,
                final(self).errors@.len() as int,
                enums_decls(old(self).scope@, es@),
            ),
            pass_spec_ok(old(self).name_map@, old(self).errors@, final(self).name_map@, final(self).errors@, enums_decls(old(self).scope@, es@)),
            pass_exact(
                old(self).name_map@,
                old(self).errors@.len() as int,
                final(self).name_map@,
                final(self).errors@.len() as int,
                enums_decls(old(self).scope@, es@),
            ),
            final(self).scope == old(self).scope,
            located(old(self).name_map@, old(self).errors@) ==> located(final(self).name_map@, final(self).errors@),
    {
        let ghost scope = self.scope@;
        let mut i: usize = 0;
        proof {
            lemma_pass_refl(self.name_map@, self.errors@.len() as int);
            lemma_spec_refl(self.name_map@, self.errors@);
            lemma_exact_refl(self.name_map@, self.errors@.len() as int);
            assert(es@.take(0) =~= Seq::<EnumDescriptorProto>::empty());
        }
        while i < es.len()
            invariant
                i <= es@.len(),
                self.scope == old(self).scope,
                located(old(self).name_map@, old(self).errors@) ==> located(self.name_map@, self.errors@),
                scope == self.scope@,
                pass_ok(old(self).name_map@, old(self).errors@.len() as int, self.name_map@, self.errors@.len() as int, enums_decls(scope, es@.take(i as int))),
                pass_spec_ok(old(self).name_map@, old(self).errors@, self.name_map@, self.errors@, enums_decls(scope, es@.take(i as int))),
                pass_exact(old(self).name_map@, old(self).errors@.len() as int, self.name_map@, self.errors@.len() as int, enums_decls(scope, es@.take(i as int))),
            decreases es@.len() - i,
        {
            let ghost m = self.name_map@;
            let ghost e = self.errors@.len() as int;
            let ghost e_s = self.errors@;
            self.add_enum(&es[i]);
            proof {
                assert(es@.take(i + 1).drop_last() =~= es@.take(i as int));
                lemma_pass_trans(old(self).name_map@, old(self).errors@.len() as int, m, e, self.name_map@, self.errors@.len() as int, enums_decls(scope, es@.take(i as int)), enum_decls(scope, es@[i as int]));
                lemma_spec_trans(old(self).name_map@, old(self).errors@, m, e_s, self.name_map@, self.errors@, enums_decls(scope, es@.take(i as int)), enum_decls(scope, es@[i as int]));
                lemma_exact_trans(old(self).name_map@, old(self).errors@.len() as int, m, e, self.name_map@, self.errors@.len() as int, enums_decls(scope, es@.take(i as int)), enum_decls(scope, es@[i as int]));
            }
            i = i + 1;
        }
        proof {
            assert(es@.take(i as int) =~= es@);
        }
    }

    fn add_descriptor_proto(&mut self, message: &DescriptorProto)
        ensures
            pass_ok(
                old(self).name_map@,
                old(self).errors@.len() as int,
                final(self).name_map@,
                final(self).errors@.len() as int,
                message_decls(old(self).scope@, *message),
            ),
            pass_spec_ok(old(self).name_map@, old(self).errors@, final(self).name_map@, final(self).errors@, message_decls(old(self).scope@, *message)),
            pass_exact(
                old(self).name_map@,
                old(self).errors@.len() as int,
                final(self).name_map@,
                final(self).errors@.len() as int,
                message_decls(old(self).scope@, *message),
            ),
            final(self).scope == old(self).scope,
            located(old(self).name_map@, old(self).errors@) ==> located(final(self).name_map@, final(self).errors@),
        decreases message,
    {
        let ghost scope = self.scope@;
        let ghost m0 = self.name_map@;
        let ghost e0 = self.errors@.len() as int;
        let ghost e0_s = self.errors@;
        let name = match &message.name {
            Some(n) => n.as_str(),
            None => "",
        };
        proof {
            reveal_strlit("");
        }
        self.add_name(name, DefinitionKind::Message);
        let ghost m1 = self.name_map@;
        let ghost e1 = self.errors@.len() as int;
        let ghost e1_s = self.errors@;
        let saved = self.scope.clone();
        self.scope = join_name(saved.as_str(), name);
        let ghost inner = self.scope@;
        self.add_fields(&message.field);
        let ghost m2 = self.name_map@;
        let ghost e2 = self.errors@.len() as int;
        let ghost e2_s = self.errors@;
        self.add_oneofs(&message.oneof_decl);
        let ghost m3 = self.name_map@;
        let ghost e3 = self.errors@.len() as int;
        let ghost e3_s = self.errors@;
        let mut i: usize = 0;
        proof {
            lemma_pass_refl(self.name_map@, self.errors@.len() as int);
            lemma_spec_refl(self.name_map@, self.errors@);
            lemma_exact_refl(self.name_map@, self.errors@.len() as int);
        }
        while i < message.nested_type.len()
            invariant
                i <= message.nested_type@.len(),
                self.scope@ == inner,
                located(old(self).name_map@, old(self).errors@) ==> located(self.name_map@, self.errors@),
                pass_ok(m3, e3, self.name_map@, self.errors@.len() as int, nested_decls(inner, message.nested_type@, i as int)),
                pass_spec_ok(m3, e3_s, self.name_map@, self.errors@, nested_decls(inner, message.nested_type@, i as int)),
                pass_exact(m3, e3, self.name_map@, self.errors@.len() as int, nested_decls(inner, message.nested_type@, i as int)),
            decreases message.nested_type@.len() - i,
        {
            let ghost m = self.name_map@;
            let ghost e = self.errors@.len() as int;
            let ghost e_s = self.errors@;
            self.add_descriptor_proto(&message.nested_type[i]);
            proof {
                lemma_pass_trans(m3, e3, m, e, self.name_map@, self.errors@.len() as int, nested_decls(inner, message.nested_type@, i as int), message_decls(inner, message.nested_type@[i as int]));
                lemma_spec_trans(m3, e3_s, m, e_s, self.name_map@, self.errors@, nested_decls(inner, message.nested_type@, i as int), message_decls(inner, message.nested_type@[i as int]));
                lemma_exact_trans(m3, e3, m, e, self.name_map@, self.errors@.len() as int, nested_decls(inner, message.nested_type@, i as int), message_decls(inner, message.nested_type@[i as int]));
            }
            i = i + 1;
        }
        let ghost m4 = self.name_map@;
        let ghost e4 = self.errors@.len() as int;
        let ghost e4_s = self.errors@;
        self.add_enums(&message.enum_type);
        let ghost m5 = self.name_map@;
        let ghost e5 = self.errors@.len() as int;
        let ghost e5_s = self.errors@;
        self.add_fields(&message.extension);
        self.scope = saved;
        proof {
            let d1 = seq![(scope, opt_name(message.name), DefinitionKind::Message)];
            let d2 = field_decls(inner, message.field@);
            let d3 = message.oneof_decl@.map_values(|o: crate::types::OneofDescriptorProto| (inner, opt_name(o.name), DefinitionKind::Oneof));
            let d4 = nested_decls(inner, message.nested_type@, message.nested_type@.len() as int);
            let d5 = enums_decls(inner, message.enum_type@);
            let d6 = field_decls(inner, message.extension@);
            assert(name@ == opt_name(message.name));
            lemma_pass_trans(m0, e0, m1, e1, m2, e2, d1, d2);
            lemma_spec_trans(m0, e0_s, m1, e1_s, m2, e2_s, d1, d2);
            lemma_exact_trans(m0, e0, m1, e1, m2, e2, d1, d2);
            lemma_pass_trans(m0, e0, m2, e2, m3, e3, d1 + d2, d3);
            lemma_spec_trans(m0, e0_s, m2, e2_s, m3, e3_s, d1 + d2, d3);
            lemma_exact_trans(m0, e0, m2, e2, m3, e3, d1 + d2, d3);
            lemma_pass_trans(m0, e0, m3, e3, m4, e4, d1 + d2 + d3, d4);
            lemma_spec_trans(m0, e0_s, m3, e3_s, m4, e4_s, d1 + d2 + d3, d4);
            lemma_exact_trans(m0, e0, m3, e3, m4, e4, d1 + d2 + d3, d4);
            lemma_pass_trans(m0, e0, m4, e4, m5, e5, d1 + d2 + d3 + d4, d5);
            lemma_spec_trans(m0, e0_s, m4, e4_s, m5, e5_s, d1 + d2 + d3 + d4, d5);
            lemma_exact_trans(m0, e0, m4, e4, m5, e5, d1 + d2 + d3 + d4, d5);
            lemma_pass_trans(m0, e0, m5, e5, self.name_map@, self.errors@.len() as int, d1 + d2 + d3 + d4 + d5, d6);
            lemma_spec_trans(m0, e0_s, m5, e5_s, self.name_map@, self.errors@, d1 + d2 + d3 + d4 + d5, d6);
            lemma_exact_trans(m0, e0, m5, e5, self.name_map@, self.errors@.len() as int, d1 + d2 + d3 + d4 + d5, d6);
            assert(message_decls(scope, *message) == d1 + d2 + d3 + d4 + d5 + d6);
        }
    }

    fn add_service(&mut self, service: &ServiceDescriptorProto)
        ensures
            pass_ok(
                old(self).name_map@,
                old(self).errors@.len() as int,
                final(self).name_map@,
                final(self).errors@.len() as int,
                service_decls(old(self).scope@, *service),
            ),
            pass_spec_ok(old(self).name_map@, old(self).errors@, final(self).name_map@, final(self).errors@, service_decls(old(self).scope@, *service)),
            pass_exact(
                old(self).name_map@,
                old(self).errors@.len() as int,
                final(self).name_map@,
                final(self).errors@.len() as int,
                service_decls(old(self).scope@, *service),
            ),
            final(self).scope == old(self).scope,
            located(old(self).name_map@, old(self).errors@) ==> located(final(self).name_map@, final(self).errors@),
    {
        let ghost scope = self.scope@;
        let name = match &service.name {
            Some(n) => n.as_str(),
            None => "",
        };
        proof {
            reveal_strlit("");
        }
        self.add_name(name, DefinitionKind::Service);
        let ghost m1 = self.name_map@;
        let ghost e1 = self.errors@.len() as int;
        let ghost e1_s = self.errors@;
        let saved = self.scope.clone();
        self.scope = join_name(saved.as_str(), name);
        let ghost inner = self.scope@;
        let mut i: usize = 0;
        proof {
            lemma_pass_refl(self.name_map@, self.errors@.len() as int);
            lemma_spec_refl(self.name_map@, self.errors@);
            lemma_exact_refl(self.name_map@, self.errors@.len() as int);
        }
        while i < service.method.len()
            invariant
                i <= service.method@.len(),
                self.scope@ == inner,
                located(old(self).name_map@, old(self).errors@) ==> located(self.name_map@, self.errors@),
                pass_ok(m1, e1, self.name_map@, self.errors@.len() as int,
                    service.method@.take(i as int).map_values(|m: crate::types::MethodDescriptorProto| (inner, opt_name(m.name), DefinitionKind::Method))),
                pass_spec_ok(m1, e1_s, self.name_map@, self.errors@, service.method@.take(i as int).map_values(|m: crate::types::MethodDescriptorProto| (inner, opt_name(m.name), DefinitionKind::Method))),
                pass_exact(m1, e1, self.name_map@, self.errors@.len() as int,
                    service.method@.take(i as int).map_values(|m: crate::types::MethodDescriptorProto| (inner, opt_name(m.name), DefinitionKind::Method))),
            decreases service.method@.len() - i,
        {
            let ghost m = self.name_map@;
            let ghost er = self.errors@.len() as int;
            let ghost er_s = self.errors@;
            let mname = match &service.method[i].name {
                Some(n) => n.as_str(),
                None => "",
            };
            proof {
                reveal_strlit("");
                assert(mname@ == opt_name(service.method@[i as int].name));
            }
            self.add_name(mname, DefinitionKind::Method);
            proof {
                let f = |m: crate::types::MethodDescriptorProto| (inner, opt_name(m.name), DefinitionKind::Method);
                let d0 = service.method@.take(i as int).map_values(f);
                lemma_pass_trans(m1, e1, m, er, self.name_map@, self.errors@.len() as int, d0, seq![(inner, mname@, DefinitionKind::Method)]);
                lemma_spec_trans(m1, e1_s, m, er_s, self.name_map@, self.errors@, d0, seq![(inner, mname@, DefinitionKind::Method)]);
                lemma_exact_trans(m1, e1, m, er, self.name_map@, self.errors@.len() as int, d0, seq![(inner, mname@, DefinitionKind::Method)]);
                assert(service.method@.take(i + 1) =~= service.method@.take(i as int).push(service.method@[i as int]));
                assert(service.method@.take(i + 1).map_values(f) =~= d0 + seq![(inner, mname@, DefinitionKind::Method)]);
            }
            i = i + 1;
        }
        self.scope = saved;
        proof {
            let f = |m: crate::types::MethodDescriptorProto| (inner, opt_name(m.name), DefinitionKind::Method);
            assert(service.method@.take(i as int) =~= service.method@);
            assert(name@ == opt_name(service.name));
            lemma_pass_trans(old(self).name_map@, old(self).errors@.len() as int, m1, e1, self.name_map@, self.errors@.len() as int,
                seq![(scope, name@, DefinitionKind::Service)], service.method@.map_values(f));
            lemma_spec_trans(old(self).name_map@, old(self).errors@, m1, e1_s, self.name_map@, self.errors@, seq![(scope, name@, DefinitionKind::Service)], service.method@.map_values(f));
            lemma_exact_trans(old(self).name_map@, old(self).errors@.len() as int, m1, e1, self.name_map@, self.errors@.len() as int,
                seq![(scope, name@, DefinitionKind::Service)], service.method@.map_values(f));
            assert(service_decls(scope, *service) == seq![(scope, name@, DefinitionKind::Service)] + service.method@.map_values(f));
        }
    }

    fn add_services(&mut self, ss: &Vec<ServiceDescriptorProto>)
        ensures
            pass_ok(
                old(self).name_map@,
                old(self).errors@.len() as int,
                final(self).name_map@,
                final(self).errors@.len() as int,
                services_decls(old(self).scope@, ss@),
            ),
            pass_spec_ok(old(self).name_map@, old(self).errors@, final(self).name_map@, final(self).errors@, services_decls(old(self).scope@, ss@)),
            pass_exact(
                old(self).name_map@,
                old(self).errors@.len() as int,
                final(self).name_map@,
                final(self).errors@.len() as int,
                services_decls(old(self).scope@, ss@),
            ),
            final(self).scope == old(self).scope,
            located(old(self).name_map@, old(self).errors@) ==> located(final(self).name_map@, final(self).errors@),
    {
        let ghost scope = self.scope@;
        let mut i: usize = 0;
        proof {
            lemma_pass_refl(self.name_map@, self.errors@.len() as int);
            lemma_spec_refl(self.name_map@, self.errors@);
            lemma_exact_refl(self.name_map@, self.errors@.len() as int);
            assert(ss@.take(0) =~= Seq::<ServiceDescriptorProto>::empty());
        }
        while i < ss.len()
            invariant
                i <= ss@.len(),
                self.scope == old(self).scope,
                located(old(self).name_map@, old(self).errors@) ==> located(self.name_map@, self.errors@),
                scope == self.scope@,
                pass_ok(old(self).name_map@, old(self).errors@.len() as int, self.name_map@, self.errors@.len() as int, services_decls(scope, ss@.take(i as int))),
                pass_spec_ok(old(self).name_map@, old(self).errors@, self.name_map@, self.errors@, services_decls(scope, ss@.take(i as int))),
                pass_exact(old(self).name_map@, old(self).errors@.len() as int, self.name_map@, self.errors@.len() as int, services_decls(scope, ss@.take(i as int))),
            decreases ss@.len() - i,
        {
            let ghost m = self.name_map@;
            let ghost e = self.errors@.len() as int;
            let ghost e_s = self.errors@;
            self.add_service(&ss[i]);
            proof {
                assert(ss@.take(i + 1).drop_last() =~= ss@.take(i as int));
                lemma_pass_trans(old(self).name_map@, old(self).errors@.len() as int, m, e, self.name_map@, self.errors@.len() as int, services_decls(scope, ss@.take(i as int)), service_decls(scope, ss@[i as int]));
                lemma_spec_trans(old(self).name_map@, old(self).errors@, m, e_s, self.name_map@, self.errors@, services_decls(scope, ss@.take(i as int)), service_decls(scope, ss@[i as int]));
                lemma_exact_trans(old(self).name_map@, old(self).errors@.len() as int, m, e, self.name_map@, self.errors@.len() as int, services_decls(scope, ss@.take(i as int)), service_decls(scope, ss@[i as int]));
            }
            i = i + 1;
        }
        proof {
            assert(ss@.take(i as int) =~= ss@);
        }
    }

    /// Adds a package and each package enclosing it, from the root.
    fn add_package(&mut self, package: &str)
        requires
            old(self).scope@.len() == 0,
        ensures
            pass_ok(
                old(self).name_map@,
                old(self).errors@.len() as int,
                final(self).name_map@,
                final(self).errors@.len() as int,
                package_decls(package@),
            ),
            pass_spec_ok(old(self).name_map@, old(self).errors@, final(self).name_map@, final(self).errors@, package_decls(package@)),
            pass_exact(
                old(self).name_map@,
                old(self).errors@.len() as int,
                final(self).name_map@,
                final(self).errors@.len() as int,
                package_decls(package@),
            ),
            final(self).scope == old(self).scope,
            located(old(self).name_map@, old(self).errors@) ==> located(final(self).name_map@, final(self).errors@),
        decreases package@.len(),
    {
        if package.is_empty() {
            proof {
                lemma_pass_refl(self.name_map@, self.errors@.len() as int);
                lemma_spec_refl(self.name_map@, self.errors@);
                lemma_exact_refl(self.name_map@, self.errors@.len() as int);
            }
            return;
        }
        let parent = parent_scope_of(package);
        let ghost m0 = self.name_map@;
        let ghost e0 = self.errors@.len() as int;
        let ghost e0_s = self.errors@;
        if !parent.as_str().is_empty() {
            proof {
                lemma_parent_scope_shorter(package@);
            }
            self.add_package(parent.as_str());
        } else {
            proof {
                lemma_pass_refl(self.name_map@, self.errors@.len() as int);
                lemma_spec_refl(self.name_map@, self.errors@);
                lemma_exact_refl(self.name_map@, self.errors@.len() as int);
            }
        }
        let ghost m1 = self.name_map@;
        let ghost e1 = self.errors@.len() as int;
        let ghost e1_s = self.errors@;
        self.add_name(package, DefinitionKind::Package);
        proof {
            let tail = seq![(Seq::<char>::empty(), package@, DefinitionKind::Package)];
            assert(old(self).scope@ =~= Seq::<char>::empty());
            if parent@.len() == 0 {
                lemma_pass_trans(m0, e0, m1, e1, self.name_map@, self.errors@.len() as int, Seq::empty(), tail);
                lemma_spec_trans(m0, e0_s, m1, e1_s, self.name_map@, self.errors@, Seq::empty(), tail);
                lemma_exact_trans(m0, e0, m1, e1, self.name_map@, self.errors@.len() as int, Seq::empty(), tail);
                assert(Seq::<Decl>::empty() + tail =~= tail);
            } else {
                lemma_pass_trans(m0, e0, m1, e1, self.name_map@, self.errors@.len() as int, package_decls(parent@), tail);
                lemma_spec_trans(m0, e0_s, m1, e1_s, self.name_map@, self.errors@, package_decls(parent@), tail);
                lemma_exact_trans(m0, e0, m1, e1, self.name_map@, self.errors@.len() as int, package_decls(parent@), tail);
            }
        }
    }

    fn add_fields(&mut self, fields: &Vec<FieldDescriptorProto>)
        ensures
            pass_ok(
                old(self).name_map@,
                old(self).errors@.len() as int,
                final(self).name_map@,
                final(self).errors@.len() as int,
                field_decls(old(self).scope@, fields@),
            ),
            pass_spec_ok(old(self).name_map@, old(self).errors@, final(self).name_map@, final(self).errors@, field_decls(old(self).scope@, fields@)),
            pass_exact(
                old(self).name_map@,
                old(self).errors@.len() as int,
                final(self).name_map@,
                final(self).errors@.len() as int,
                field_decls(old(self).scope@, fields@),
            ),
            final(self).scope == old(self).scope,
            located(old(self).name_map@, old(self).errors@) ==> located(final(self).name_map@, final(self).errors@),
    {
        let ghost scope = self.scope@;
        let mut i: usize = 0;
        proof {
            lemma_pass_refl(self.name_map@, self.errors@.len() as int);
            lemma_spec_refl(self.name_map@, self.errors@);
            lemma_exact_refl(self.name_map@, self.errors@.len() as int);
            assert(field_decls(scope, fields@.take(0)) =~= Seq::<Decl>::empty());
        }
        while i < fields.len()
            invariant
                i <= fields@.len(),
                self.scope == old(self).scope,
                located(old(self).name_map@, old(self).errors@) ==> located(self.name_map@, self.errors@),
                scope == self.scope@,
                pass_ok(
                    old(self).name_map@,
                    old(self).errors@.len() as int,
                    self.name_map@,
                    self.errors@.len() as int,
                    field_decls(scope, fields@.take(i as int)),
                ),
                pass_spec_ok(old(self).name_map@, old(self).errors@, self.name_map@, self.errors@, field_decls(scope, fields@.take(i as int))),
                pass_exact(
                    old(self).name_map@,
                    old(self).errors@.len() as int,
                    self.name_map@,
                    self.errors@.len() as int,
                    field_decls(scope, fields@.take(i as int)),
                ),
            decreases fields@.len() - i,
        {
            let ghost m = self.name_map@;
            let ghost e = self.errors@.len() as int;
            let ghost e_s = self.errors@;
            let f = &fields[i];
            let kind = DefinitionKind::Field {
                number: match f.number {
                    Some(n) => n,
                    None => 0,
                },
                ty: f.ty,
                type_ref: copy_string_option(&f.type_ref),
                label: f.label,
                oneof_index: f.oneof_index,
                extendee: copy_string_option(&f.extendee),
            };
            let name = match &f.name {
                Some(n) => n.as_str(),
                None => "",
            };
            proof {
                reveal_strlit("");
                assert(kind == field_kind(fields@[i as int]));
                assert(name@ == opt_name(fields@[i as int].name));
            }
            self.add_name(name, kind);
            proof {
                lemma_pass_trans(old(self).name_map@, old(self).errors@.len() as int, m, e, self.name_map@, self.errors@.len() as int, field_decls(scope, fields@.take(i as int)), seq![(scope, name@, kind)]);
                lemma_spec_trans(old(self).name_map@, old(self).errors@, m, e_s, self.name_map@, self.errors@, field_decls(scope, fields@.take(i as int)), seq![(scope, name@, kind)]);
                lemma_exact_trans(old(self).name_map@, old(self).errors@.len() as int, m, e, self.name_map@, self.errors@.len() as int, field_decls(scope, fields@.take(i as int)), seq![(scope, name@, kind)]);
                assert(fields@.take(i + 1) =~= fields@.take(i as int).push(fields@[i as int]));
                assert(field_decls(scope, fields@.take(i + 1)) =~= field_decls(scope, fields@.take(i as int)) + seq![(scope, name@, kind)]);
            }
            i = i + 1;
        }
        proof {
            assert(fields@.take(i as int) =~= fields@);
        }
    }
}

/// A file already compiled, known by its name, with its name map.
#[derive(Debug)]
pub struct ParsedFile {
    pub name: String,
    pub name_map: NameMap,
}

/// The files compiled so far.
#[derive(Debug)]
pub struct ParsedFileMap {
    pub files: Vec<ParsedFile>,
}

impl ParsedFileMap {
    pub fn new() -> (r: ParsedFileMap)
        ensures
            r.files@.len() == 0,
    {
        ParsedFileMap { files: Vec::new() }
    }

    /// The compiled file of that name, if there is one: the first listed.
    pub fn get(&self, name: &String) -> (r: Option<&ParsedFile>)
        ensures
            match r {
                Some(f) => import_of(self.files@, name@) == Some(*f),
                None => import_of(self.files@, name@) is None,
            },
    {
        let mut i: usize = 0;
        assert(self.files@.skip(0) =~= self.files@);
        while i < self.files.len()
            invariant
                i <= self.files@.len(),
                import_of(self.files@, name@) == import_of(self.files@.skip(i as int), name@),
            decreases self.files@.len() - i,
        {
            assert(self.files@.skip(i as int).skip(1) =~= self.files@.skip(i + 1));
            if self.files[i].name == *name {
                return Some(&self.files[i]);
            }
            i = i + 1;
        }
        assert(self.files@.skip(i as int).len() == 0);
        None
    }
}

/// The first compiled file of that name.
pub open spec fn import_of(files: Seq<ParsedFile>, name: Seq<char>) -> Option<ParsedFile>
    decreases files.len(),
{
    if files.len() == 0 {
        None
    } else if files[0].name@ == name {
        Some(files[0])
    } else {
        import_of(files.skip(1), name)
    }
}

/// A public name of the compiled file that the file's `j`-th import names.
pub open spec fn imported_public(file: FileDescriptorProto, file_map: ParsedFileMap, j: int, k: Seq<char>) -> bool {
    0 <= j < file.dependency@.len() && match import_of(file_map.files@, file.dependency@[j]@) {
        Some(f) => f.name_map@.contains_key(k) && f.name_map@[k].public,
        None => false,
    }
}

/// No two imports make one name public, unless both as a package.
pub open spec fn imports_clash_free(file: FileDescriptorProto, file_map: ParsedFileMap) -> bool {
    forall|j1: int, j2: int, k: Seq<char>|
        #![trigger imported_public(file, file_map, j1, k), imported_public(file, file_map, j2, k)]
        j1 != j2 && imported_public(file, file_map, j1, k) && imported_public(file, file_map, j2, k) ==> (
        import_of(file_map.files@, file.dependency@[j1]@)->0.name_map@[k].kind is Package && import_of(
            file_map.files@,
            file.dependency@[j2]@,
        )->0.name_map@[k].kind is Package)
}

/// The file's `j`-th import is public.
pub open spec fn is_public_dep(file: FileDescriptorProto, j: int) -> bool {
    exists|i: int| 0 <= i < file.public_dependency@.len() && file.public_dependency@[i] as int == j
}

/// `k` is a public name of the `j`-th import and of no import before it.
pub open spec fn first_import(file: FileDescriptorProto, file_map: ParsedFileMap, j: int, k: Seq<char>) -> bool {
    imported_public(file, file_map, j, k) && forall|j2: int| 0 <= j2 < j ==> !imported_public(file, file_map, j2, k)
}

/// The entry a name of the `j`-th import gets: its kind and span, marked
/// with that file, and public exactly when the import is.
pub open spec fn import_entry(file: FileDescriptorProto, file_map: ParsedFileMap, j: int, k: Seq<char>) -> Entry {
    let f = import_of(file_map.files@, file.dependency@[j]@)->0;
    Entry { kind: f.name_map@[k].kind, span: f.name_map@[k].span, public: is_public_dep(file, j), file: Some(f.name) }
}

fn is_public_dependency(file: &FileDescriptorProto, index: usize) -> (r: bool)
    ensures
        r == is_public_dep(*file, index as int),
{
    let mut i: usize = 0;
    while i < file.public_dependency.len()
        invariant
            i <= file.public_dependency@.len(),
            forall|k: int| 0 <= k < i ==> file.public_dependency@[k] as int != index as int,
        decreases file.public_dependency@.len() - i,
    {
        if file.public_dependency[i] >= 0 && file.public_dependency[i] as usize == index {
            return true;
        }
        i = i + 1;
    }
    false
}

impl NameMap {
    /// The first pass over a file's descriptor: the public names of its
    /// imports (those found among the compiled files), then every name the
    /// file declares. Each duplicate is reported once; the map keeps the
    /// first declaration of each name.
    pub fn from_proto(file: &FileDescriptorProto, file_map: &ParsedFileMap) -> (r: (
        NameMap,
        Vec<DuplicateNameError>,
    ))
        ensures
            covers(r.0@, file_decls(*file)),
            r.1@.len() == 0 ==> agrees(r.0@, file_decls(*file)),
            forall|j: int, k: Seq<char>|
                #[trigger] imported_public(*file, *file_map, j, k) ==> r.0@.contains_key(k),
            file.dependency@.len() == 0 ==> forall|k: Seq<char>|
                #[trigger] r.0@.contains_key(k) ==> declares(file_decls(*file), k) && r.0@[k].file is None
                    && r.0@[k].public,
            file.dependency@.len() == 0 && distinct_decls(file_decls(*file)) ==> r.1@.len() == 0,
            forall|j: int, k: Seq<char>|
                #[trigger] first_import(*file, *file_map, j, k) ==> r.0@[k] == import_entry(*file, *file_map, j, k),
            located(r.0@, r.1@),
            exists|imported: Map<Seq<char>, Entry>, clashes: Seq<DuplicateNameError>|
                #![trigger pass_spec(imported, file_decls(*file)), dviews(clashes)]
                r.0@ == pass_spec(imported, file_decls(*file)).0 && dviews(r.1@) == dviews(clashes) + pass_spec(
                    imported,
                    file_decls(*file),
                ).1 && (forall|k: Seq<char>|
                    #[trigger] imported.contains_key(k) ==> exists|j: int|
                        0 <= j < file.dependency@.len() && imported_public(*file, *file_map, j, k)) && (
                forall|j: int, k: Seq<char>|
                    #[trigger] first_import(*file, *file_map, j, k) ==> imported[k] == import_entry(
                        *file,
                        *file_map,
                        j,
                        k,
                    )) && (imports_clash_free(*file, *file_map) ==> clashes.len() == 0) && (file.dependency@.len()
                == 0 ==> imported == Map::<Seq<char>, Entry>::empty()),
            forall|k: Seq<char>|
                #[trigger] r.0@.contains_key(k) ==> declares(file_decls(*file), k) || exists|j: int|
                    0 <= j < file.dependency@.len() && imported_public(*file, *file_map, j, k),
    {
        let mut pass = NamePass { name_map: NameMap::new(), scope: String::new(), errors: Vec::new() };
        let mut i: usize = 0;
        while i < file.dependency.len()
            invariant
                i <= file.dependency@.len(),
                pass.scope@.len() == 0,
                located(pass.name_map@, pass.errors@),
                i == 0 ==> pass.name_map@ == Map::<Seq<char>, Entry>::empty() && pass.errors@.len() == 0,
                forall|j: int, k: Seq<char>|
                    j < i && #[trigger] imported_public(*file, *file_map, j, k) ==> pass.name_map@.contains_key(k),
                forall|k: Seq<char>|
                    #[trigger] pass.name_map@.contains_key(k) ==> exists|j: int| 0 <= j < i && imported_public(*file, *file_map, j, k),
                forall|j: int, k: Seq<char>|
                    j < i && #[trigger] first_import(*file, *file_map, j, k) ==> pass.name_map@[k] == import_entry(*file, *file_map, j, k),
                forall|k: Seq<char>|
                    #[trigger] pass.name_map@.contains_key(k) ==> exists|j: int| 0 <= j < i && imported_public(*file, *file_map, j, k)
                        && pass.name_map@[k].kind == import_of(file_map.files@, file.dependency@[j]@)->0.name_map@[k].kind,
                imports_clash_free(*file, *file_map) ==> pass.errors@.len() == 0,
            decreases file.dependency@.len() - i,
        {
            let ghost before = pass.name_map@;
            match file_map.get(&file.dependency[i]) {
                Some(import) => {
                    let public = is_public_dependency(file, i);
                    let ghost e_before = pass.errors@;
                    let mut errors = pass.name_map.merge(&import.name_map, &import.name, public);
                    proof {
                        if imports_clash_free(*file, *file_map) && errors@.len() > 0 {
                            let k = errors@[0].name@;
                            assert(is_merge_duplicate(before, import.name_map@, k));
                            assert(imported_public(*file, *file_map, i as int, k));
                            let j = choose|j: int| 0 <= j < i && imported_public(*file, *file_map, j, k)
                                && before[k].kind == import_of(file_map.files@, file.dependency@[j]@)->0.name_map@[k].kind;
                            assert(imported_public(*file, *file_map, j, k));
                        }
                    }
                    pass.errors.append(&mut errors);
                },
                None => {},
            }
            proof {
                assert forall|j: int, k: Seq<char>|
                    j < i + 1 && #[trigger] imported_public(*file, *file_map, j, k) implies pass.name_map@.contains_key(k) by {
                    if j < i {
                        assert(before.contains_key(k));
                    }
                }
                assert forall|k: Seq<char>| #[trigger] pass.name_map@.contains_key(k) implies exists|j: int|
                    0 <= j < i + 1 && imported_public(*file, *file_map, j, k)
                        && pass.name_map@[k].kind == import_of(file_map.files@, file.dependency@[j]@)->0.name_map@[k].kind by {
                    if before.contains_key(k) {
                        let j = choose|j: int| 0 <= j < i && imported_public(*file, *file_map, j, k)
                            && before[k].kind == import_of(file_map.files@, file.dependency@[j]@)->0.name_map@[k].kind;
                    } else {
                        assert(imported_public(*file, *file_map, i as int, k));
                    }
                }
                assert forall|k: Seq<char>| #[trigger] pass.name_map@.contains_key(k) implies exists|j: int|
                    0 <= j < i + 1 && imported_public(*file, *file_map, j, k) by {
                    if before.contains_key(k) {
                        let j = choose|j: int| 0 <= j < i && imported_public(*file, *file_map, j, k);
                    } else {
                        assert(imported_public(*file, *file_map, i as int, k));
                    }
                }
                assert forall|j: int, k: Seq<char>|
                    j < i + 1 && #[trigger] first_import(*file, *file_map, j, k) implies pass.name_map@[k] == import_entry(*file, *file_map, j, k) by {
                    if j < i {
                        assert(before.contains_key(k));
                    } else {
                        if before.contains_key(k) {
                            let j2 = choose|j2: int| 0 <= j2 < i && imported_public(*file, *file_map, j2, k);
                            assert(!imported_public(*file, *file_map, j2, k));
                        }
                    }
                }
            }
            i = i + 1;
        }
        let ghost merged = pass.name_map@;
        let ghost m0 = pass.name_map@;
        let ghost e0 = pass.errors@.len() as int;
        let ghost e0_s = pass.errors@;
        let package = match &file.package {
            Some(p) => p.as_str(),
            None => "",
        };
        proof {
            reveal_strlit("");
        }
        pass.add_package(package);
        let ghost m1 = pass.name_map@;
        let ghost e1 = pass.errors@.len() as int;
        let ghost e1_s = pass.errors@;
        pass.scope = String::from_str(package);
        let ghost p = pass.scope@;
        let mut j: usize = 0;
        proof {
            lemma_pass_refl(pass.name_map@, pass.errors@.len() as int);
            lemma_spec_refl(pass.name_map@, pass.errors@);
            lemma_exact_refl(pass.name_map@, pass.errors@.len() as int);
        }
        while j < file.message_type.len()
            invariant
                j <= file.message_type@.len(),
                pass.scope@ == p,
                located(pass.name_map@, pass.errors@),
                pass_ok(m1, e1, pass.name_map@, pass.errors@.len() as int, nested_decls(p, file.message_type@, j as int)),
                pass_spec_ok(m1, e1_s, pass.name_map@, pass.errors@, nested_decls(p, file.message_type@, j as int)),
                pass_exact(m1, e1, pass.name_map@, pass.errors@.len() as int, nested_decls(p, file.message_type@, j as int)),
            decreases file.message_type@.len() - j,
        {
            let ghost m = pass.name_map@;
            let ghost e = pass.errors@.len() as int;
            let ghost e_s = pass.errors@;
            pass.add_descriptor_proto(&file.message_type[j]);
            proof {
                lemma_pass_trans(m1, e1, m, e, pass.name_map@, pass.errors@.len() as int, nested_decls(p, file.message_type@, j as int), message_decls(p, file.message_type@[j as int]));
                lemma_spec_trans(m1, e1_s, m, e_s, pass.name_map@, pass.errors@, nested_decls(p, file.message_type@, j as int), message_decls(p, file.message_type@[j as int]));
                lemma_exact_trans(m1, e1, m, e, pass.name_map@, pass.errors@.len() as int, nested_decls(p, file.message_type@, j as int), message_decls(p, file.message_type@[j as int]));
            }
            j = j + 1;
        }
        let ghost m2 = pass.name_map@;
        let ghost e2 = pass.errors@.len() as int;
        let ghost e2_s = pass.errors@;
        pass.add_enums(&file.enum_type);
        let ghost m3 = pass.name_map@;
        let ghost e3 = pass.errors@.len() as int;
        let ghost e3_s = pass.errors@;
        pass.add_fields(&file.extension);
        let ghost m4 = pass.name_map@;
        let ghost e4 = pass.errors@.len() as int;
        let ghost e4_s = pass.errors@;
        pass.add_services(&file.service);
        proof {
            let d1 = package_decls(p);
            let d2 = nested_decls(p, file.message_type@, file.message_type@.len() as int);
            let d3 = enums_decls(p, file.enum_type@);
            let d4 = field_decls(p, file.extension@);
            let d5 = services_decls(p, file.service@);
            assert(p == opt_name(file.package));
            lemma_pass_trans(m0, e0, m1, e1, m2, e2, d1, d2);
            lemma_spec_trans(m0, e0_s, m1, e1_s, m2, e2_s, d1, d2);
            lemma_exact_trans(m0, e0, m1, e1, m2, e2, d1, d2);
            lemma_pass_trans(m0, e0, m2, e2, m3, e3, d1 + d2, d3);
            lemma_spec_trans(m0, e0_s, m2, e2_s, m3, e3_s, d1 + d2, d3);
            lemma_exact_trans(m0, e0, m2, e2, m3, e3, d1 + d2, d3);
            lemma_pass_trans(m0, e0, m3, e3, m4, e4, d1 + d2 + d3, d4);
            lemma_spec_trans(m0, e0_s, m3, e3_s, m4, e4_s, d1 + d2 + d3, d4);
            lemma_exact_trans(m0, e0, m3, e3, m4, e4, d1 + d2 + d3, d4);
            lemma_pass_trans(m0, e0, m4, e4, pass.name_map@, pass.errors@.len() as int, d1 + d2 + d3 + d4, d5);
            lemma_spec_trans(m0, e0_s, m4, e4_s, pass.name_map@, pass.errors@, d1 + d2 + d3 + d4, d5);
            lemma_exact_trans(m0, e0, m4, e4, pass.name_map@, pass.errors@.len() as int, d1 + d2 + d3 + d4, d5);
            assert(file_decls(*file) == d1 + d2 + d3 + d4 + d5);
            assert forall|j: int, k: Seq<char>| #[trigger] imported_public(*file, *file_map, j, k) implies pass.name_map@.contains_key(k) by {
                assert(merged.contains_key(k));
            }
            assert forall|j: int, k: Seq<char>| #[trigger] first_import(*file, *file_map, j, k) implies pass.name_map@[k] == import_entry(*file, *file_map, j, k) by {
                assert(merged.contains_key(k));
            }
            assert(pass_spec_ok(m0, e0_s, pass.name_map@, pass.errors@, file_decls(*file)));
            assert(forall|k: Seq<char>| #[trigger] m0.contains_key(k) ==> exists|j: int|
                0 <= j < file.dependency@.len() && imported_public(*file, *file_map, j, k));
            assert(pass_spec(m0, file_decls(*file)).0 == pass.name_map@);
            assert forall|k: Seq<char>| #[trigger] pass.name_map@.contains_key(k) implies declares(file_decls(*file), k) || exists|j: int|
                0 <= j < file.dependency@.len() && imported_public(*file, *file_map, j, k) by {
                if merged.contains_key(k) {
                    let j = choose|j: int| 0 <= j < file.dependency@.len() && imported_public(*file, *file_map, j, k);
                }
            }
        }
        (pass.name_map, pass.errors)
    }
}

/// Every declaration of a file that the first pass took in without a
/// duplicate resolves, from the scope it was declared in, to itself: its
/// absolute name and the kind it was declared with.
pub proof fn lemma_declarations_resolve(m: Map<Seq<char>, Entry>, ds: Seq<Decl>)
    requires
        covers(m, ds),
        agrees(m, ds),
        forall|i: int| 0 <= i < ds.len() ==> (#[trigger] ds[i]).1.len() > 0 && ds[i].1[0] != '.',
    ensures
        forall|i: int|
            0 <= i < ds.len() ==> resolve_spec(m, (#[trigger] ds[i]).0, ds[i].1) == Some(
                (seq!['.'] + join(ds[i].0, ds[i].1), ds[i].2),
            ),
{
    assert forall|i: int| 0 <= i < ds.len() implies resolve_spec(m, (#[trigger] ds[i]).0, ds[i].1) == Some(
        (seq!['.'] + join(ds[i].0, ds[i].1), ds[i].2),
    ) by {
        lemma_resolve_declared(m, ds[i].0, ds[i].1);
    }
}

} // verus!
