//! Versions of a blueprint: its content, the history of revisions, and how far
//! servers have drifted from it.
use crate::digest;
use crate::json;
use crate::json::Json;
use crate::models::{Blueprint, BlueprintInput, InputKind};
use crate::text;
use vstd::prelude::*;
use vstd::string::*;
use vstd::utf8::*;

verus! {

/// The content of a blueprint: what a revision keeps and a rollback restores.
pub struct Content {
    pub name: json::Doc,
    pub description: json::Doc,
    pub author: json::Doc,
    pub category: json::Doc,
    pub runtime_hint: json::Doc,
    pub startup: json::Doc,
    pub stop_command: json::Doc,
    pub default_config: json::Doc,
    pub install_script: json::Doc,
    pub variables: json::Doc,
}

/// The texts of a content as a document.
pub open spec fn document_of_texts(c: Content) -> json::Doc {
    let d = json::Doc::Object(Seq::empty());
    let d = json::inserted(d, "name"@, c.name);
    let d = json::inserted(d, "description"@, c.description);
    let d = json::inserted(d, "author"@, c.author);
    let d = json::inserted(d, "category"@, c.category);
    let d = json::inserted(d, "runtime_hint"@, c.runtime_hint);
    let d = json::inserted(d, "startup"@, c.startup);
    let d = json::inserted(d, "stop_command"@, c.stop_command);
    let d = json::inserted(d, "default_config"@, c.default_config);
    json::inserted(d, "install_script"@, c.install_script)
}

/// Content as a document.
pub open spec fn document(c: Content) -> json::Doc {
    json::inserted(document_of_texts(c), "variables"@, c.variables)
}

/// The content of a blueprint whose inputs, as a document, are `variables`.
pub open spec fn content_of(b: Blueprint, variables: json::Doc) -> Content {
    Content {
        name: json::Doc::Text(b.name@),
        description: json::Doc::Text(b.description@),
        author: json::Doc::Text(b.author@),
        category: json::Doc::Text(b.category@),
        runtime_hint: json::Doc::Text(b.runtime_hint@),
        startup: json::Doc::Text(b.startup@),
        stop_command: json::Doc::Text(b.stop_command@),
        default_config: json::optional_text(b.default_config),
        install_script: json::optional_text(b.install_script),
        variables,
    }
}

/// Content as a document.
fn build_document(
    name: Json,
    description: Json,
    author: Json,
    category: Json,
    runtime_hint: Json,
    startup: Json,
    stop_command: Json,
    default_config: Json,
    install_script: Json,
    variables: Json,
) -> (r: Json)
    ensures
        r@ == document(
            Content {
                name: name@,
                description: description@,
                author: author@,
                category: category@,
                runtime_hint: runtime_hint@,
                startup: startup@,
                stop_command: stop_command@,
                default_config: default_config@,
                install_script: install_script@,
                variables: variables@,
            },
        ),
{
    let d = Json::object();
    let d = d.insert("name", name);
    let d = d.insert("description", description);
    let d = d.insert("author", author);
    let d = d.insert("category", category);
    let d = d.insert("runtime_hint", runtime_hint);
    let d = d.insert("startup", startup);
    let d = d.insert("stop_command", stop_command);
    let d = d.insert("default_config", default_config);
    let d = d.insert("install_script", install_script);
    d.insert("variables", variables)
}

/// The content of a blueprint as a document; `variables` are its inputs as one.
pub fn content_doc(b: &Blueprint, variables: &Json) -> (r: Json)
    ensures
        r@ == document(content_of(*b, variables@)),
{
    build_document(
        Json::text(b.name.as_str()),
        Json::text(b.description.as_str()),
        Json::text(b.author.as_str()),
        Json::text(b.category.as_str()),
        Json::text(b.runtime_hint.as_str()),
        Json::text(b.startup.as_str()),
        Json::text(b.stop_command.as_str()),
        Json::optional(&b.default_config),
        Json::optional(&b.install_script),
        variables.copy(),
    )
}

/// The digest of a document.
pub open spec fn doc_digest(d: json::Doc) -> Seq<char> {
    digest::sha256_hex_of(encode_utf8(json::canonical(d)))
}

/// The digest of a content document.
fn digest_doc(doc: &Json) -> (r: String)
    ensures
        r@ == doc_digest(doc@),
{
    let t = json::canonical_json(doc);
    digest::sha256_hex(t.as_str().as_bytes())
}

/// The digest of a blueprint's content: its id, its uuid and its times are no
/// part of it.
pub fn digest_of(b: &Blueprint, variables: &Json) -> (r: String)
    ensures
        r@ == doc_digest(document(content_of(*b, variables@))),
{
    let doc = content_doc(b, variables);
    digest_doc(&doc)
}

/// What values an input takes, by the texts alone.
pub enum KindView {
    Text { max_len: Option<usize>, pattern: Option<Seq<char>> },
    Number { min: Option<Seq<char>>, max: Option<Seq<char>> },
    Bool,
    Choice { options: Seq<Seq<char>> },
    Path { max_len: Option<usize> },
    Url,
}

/// An input by its texts alone.
pub struct InputView {
    pub name: Seq<char>,
    pub description: Seq<char>,
    pub env_var: Seq<char>,
    pub default_value: Seq<char>,
    pub user_viewable: bool,
    pub user_editable: bool,
    pub required: bool,
    pub kind: KindView,
}

/// A text that may be absent.
pub open spec fn told(s: Option<String>) -> Option<Seq<char>> {
    match s {
        Some(t) => Some(t@),
        None => None,
    }
}

/// A bound of a number by its value: one that is not finite is none, and the two
/// zeros of floating point are one.
pub open spec fn bound_of(s: Option<String>) -> Option<Seq<char>> {
    match s {
        Some(t) => if t@ == "inf"@ || t@ == "-inf"@ || t@ == "NaN"@ {
            None
        } else if t@ == "-0"@ {
            Some("0"@)
        } else {
            Some(t@)
        },
        None => None,
    }
}

/// What values an input takes.
pub open spec fn kind_of(k: InputKind) -> KindView {
    match k {
        InputKind::Text { max_len, pattern } => KindView::Text { max_len, pattern: told(pattern) },
        InputKind::Number { min, max } => KindView::Number {
            min: bound_of(min),
            max: bound_of(max),
        },
        InputKind::Bool => KindView::Bool,
        InputKind::Choice { options } => KindView::Choice { options: text::views(options@) },
        InputKind::Path { max_len } => KindView::Path { max_len },
        InputKind::Url => KindView::Url,
    }
}

/// What an input declares.
pub open spec fn input_of(v: BlueprintInput) -> InputView {
    InputView {
        name: v.name@,
        description: v.description@,
        env_var: v.env_var@,
        default_value: v.default_value@,
        user_viewable: v.user_viewable,
        user_editable: v.user_editable,
        required: v.required,
        kind: kind_of(v.kind),
    }
}

/// Whether two blueprints have the same content: their texts and their inputs, in
/// the same order. Ids, uuids and times are no part of it.
pub open spec fn alike(a: Blueprint, b: Blueprint) -> bool {
    &&& a.name@ == b.name@
    &&& a.description@ == b.description@
    &&& a.author@ == b.author@
    &&& a.category@ == b.category@
    &&& a.runtime_hint@ == b.runtime_hint@
    &&& a.startup@ == b.startup@
    &&& a.stop_command@ == b.stop_command@
    &&& told(a.default_config) == told(b.default_config)
    &&& told(a.install_script) == told(b.install_script)
    &&& a.variables@.len() == b.variables@.len()
    &&& forall|i: int|
        0 <= i < a.variables@.len() ==> input_of(#[trigger] a.variables@[i]) == input_of(
            b.variables@[i],
        )
}

/// Whether two texts that may be absent are the same.
fn same_option(a: &Option<String>, b: &Option<String>) -> (r: bool)
    ensures
        r == (told(*a) == told(*b)),
{
    match (a, b) {
        (None, None) => true,
        (Some(x), Some(y)) => text::same(x.as_str(), y.as_str()),
        _ => false,
    }
}

/// A bound of a number by its value.
fn bound_value(s: &Option<String>) -> (r: Option<String>)
    ensures
        told(r) == bound_of(*s),
{
    match s {
        Some(t) => {
            let t = t.as_str();
            if text::same(t, "inf") || text::same(t, "-inf") || text::same(t, "NaN") {
                None
            } else if text::same(t, "-0") {
                Some(text::copy_of("0"))
            } else {
                Some(text::copy_of(t))
            }
        },
        None => None,
    }
}

/// Whether two lengths that may be absent are the same.
fn same_length(a: Option<usize>, b: Option<usize>) -> (r: bool)
    ensures
        r == (a == b),
{
    match (a, b) {
        (None, None) => true,
        (Some(x), Some(y)) => x == y,
        _ => false,
    }
}

/// Whether two lists of texts are the same.
fn same_texts(a: &Vec<String>, b: &Vec<String>) -> (r: bool)
    ensures
        r == (text::views(a@) == text::views(b@)),
{
    if a.len() != b.len() {
        assert(text::views(a@).len() != text::views(b@).len());
        return false;
    }
    let mut i: usize = 0;
    while i < a.len()
        invariant
            i <= a@.len() == b@.len(),
            forall|k: int| 0 <= k < i ==> text::views(a@)[k] == text::views(b@)[k],
        decreases a.len() - i,
    {
        if !text::same(a[i].as_str(), b[i].as_str()) {
            assert(text::views(a@)[i as int] != text::views(b@)[i as int]);
            return false;
        }
        i += 1;
    }
    assert(text::views(a@) =~= text::views(b@));
    true
}

/// Whether two inputs take the same values.
fn same_kind(a: &InputKind, b: &InputKind) -> (r: bool)
    ensures
        r == (kind_of(*a) == kind_of(*b)),
{
    match (a, b) {
        (InputKind::Text { max_len: m, pattern: p }, InputKind::Text { max_len: n, pattern: q }) => {
            same_length(*m, *n) && same_option(p, q)
        },
        (InputKind::Number { min: m, max: p }, InputKind::Number { min: n, max: q }) => {
            same_option(&bound_value(m), &bound_value(n)) && same_option(
                &bound_value(p),
                &bound_value(q),
            )
        },
        (InputKind::Bool, InputKind::Bool) => true,
        (InputKind::Choice { options: v }, InputKind::Choice { options: w }) => same_texts(v, w),
        (InputKind::Path { max_len: m }, InputKind::Path { max_len: n }) => same_length(*m, *n),
        (InputKind::Url, InputKind::Url) => true,
        _ => false,
    }
}

/// Whether two inputs declare the same.
fn same_input(a: &BlueprintInput, b: &BlueprintInput) -> (r: bool)
    ensures
        r == (input_of(*a) == input_of(*b)),
{
    text::same(a.name.as_str(), b.name.as_str()) && text::same(
        a.description.as_str(),
        b.description.as_str(),
    ) && text::same(a.env_var.as_str(), b.env_var.as_str()) && text::same(
        a.default_value.as_str(),
        b.default_value.as_str(),
    ) && a.user_viewable == b.user_viewable && a.user_editable == b.user_editable && a.required
        == b.required && same_kind(&a.kind, &b.kind)
}

/// Whether two blueprints have the same content.
pub fn content_equals(a: &Blueprint, b: &Blueprint) -> (r: bool)
    ensures
        r == alike(*a, *b),
{
    if !(text::same(a.name.as_str(), b.name.as_str()) && text::same(
        a.description.as_str(),
        b.description.as_str(),
    ) && text::same(a.author.as_str(), b.author.as_str()) && text::same(
        a.category.as_str(),
        b.category.as_str(),
    ) && text::same(a.runtime_hint.as_str(), b.runtime_hint.as_str()) && text::same(
        a.startup.as_str(),
        b.startup.as_str(),
    ) && text::same(a.stop_command.as_str(), b.stop_command.as_str()) && same_option(
        &a.default_config,
        &b.default_config,
    ) && same_option(&a.install_script, &b.install_script)) || a.variables.len()
        != b.variables.len() {
        return false;
    }
    let mut i: usize = 0;
    while i < a.variables.len()
        invariant
            i <= a.variables@.len() == b.variables@.len(),
            forall|k: int|
                0 <= k < i ==> input_of(#[trigger] a.variables@[k]) == input_of(b.variables@[k]),
        decreases a.variables.len() - i,
    {
        if !same_input(&a.variables[i], &b.variables[i]) {
            assert(input_of(a.variables@[i as int]) != input_of(b.variables@[i as int]));
            return false;
        }
        i += 1;
    }
    true
}

proof fn lemma_names_differ()
    ensures
        "name"@.len() == 4,
        "description"@.len() == 11,
        "author"@.len() == 6,
        "category"@.len() == 8,
        "runtime_hint"@.len() == 12 && "runtime_hint"@[0] == 'r',
        "startup"@.len() == 7,
        "stop_command"@.len() == 12 && "stop_command"@[0] == 's',
        "default_config"@.len() == 14 && "default_config"@[0] == 'd',
        "install_script"@.len() == 14 && "install_script"@[0] == 'i',
        "variables"@.len() == 9,
{
    reveal_strlit("name");
    reveal_strlit("description");
    reveal_strlit("author");
    reveal_strlit("category");
    reveal_strlit("runtime_hint");
    reveal_strlit("startup");
    reveal_strlit("stop_command");
    reveal_strlit("default_config");
    reveal_strlit("install_script");
    reveal_strlit("variables");
}

proof fn lemma_insert_one(d: json::Doc, key: Seq<char>, value: json::Doc, other: Seq<char>)
    requires
        d is Object,
    ensures
        json::inserted(d, key, value) is Object,
        json::member(json::inserted(d, key, value), key) == Some(value),
        other != key ==> json::member(json::inserted(d, key, value), other) == json::member(
            d,
            other,
        ),
{
    json::law_put_member_is_found(d->Object_0, key, value, other);
}

proof fn lemma_document_member(c: Content, key: Seq<char>)
    ensures
        key == "name"@ ==> json::member(document(c), key) == Some(c.name),
        key == "description"@ ==> json::member(document(c), key) == Some(c.description),
        key == "author"@ ==> json::member(document(c), key) == Some(c.author),
        key == "category"@ ==> json::member(document(c), key) == Some(c.category),
        key == "runtime_hint"@ ==> json::member(document(c), key) == Some(c.runtime_hint),
        key == "startup"@ ==> json::member(document(c), key) == Some(c.startup),
        key == "stop_command"@ ==> json::member(document(c), key) == Some(c.stop_command),
        key == "default_config"@ ==> json::member(document(c), key) == Some(c.default_config),
        key == "install_script"@ ==> json::member(document(c), key) == Some(c.install_script),
        key == "variables"@ ==> json::member(document(c), key) == Some(c.variables),
{
    lemma_names_differ();
    let d0 = json::Doc::Object(Seq::empty());
    let d1 = json::inserted(d0, "name"@, c.name);
    let d2 = json::inserted(d1, "description"@, c.description);
    let d3 = json::inserted(d2, "author"@, c.author);
    let d4 = json::inserted(d3, "category"@, c.category);
    let d5 = json::inserted(d4, "runtime_hint"@, c.runtime_hint);
    let d6 = json::inserted(d5, "startup"@, c.startup);
    let d7 = json::inserted(d6, "stop_command"@, c.stop_command);
    let d8 = json::inserted(d7, "default_config"@, c.default_config);
    let d9 = json::inserted(d8, "install_script"@, c.install_script);
    lemma_insert_one(d0, "name"@, c.name, key);
    lemma_insert_one(d1, "description"@, c.description, key);
    lemma_insert_one(d2, "author"@, c.author, key);
    lemma_insert_one(d3, "category"@, c.category, key);
    lemma_insert_one(d4, "runtime_hint"@, c.runtime_hint, key);
    lemma_insert_one(d5, "startup"@, c.startup, key);
    lemma_insert_one(d6, "stop_command"@, c.stop_command, key);
    lemma_insert_one(d7, "default_config"@, c.default_config, key);
    lemma_insert_one(d8, "install_script"@, c.install_script, key);
    lemma_insert_one(d9, "variables"@, c.variables, key);
}

/// A content document keeps every field of the content under its own name.
pub proof fn law_document_keeps_every_field(c: Content)
    ensures
        json::member(document(c), "name"@) == Some(c.name),
        json::member(document(c), "description"@) == Some(c.description),
        json::member(document(c), "author"@) == Some(c.author),
        json::member(document(c), "category"@) == Some(c.category),
        json::member(document(c), "runtime_hint"@) == Some(c.runtime_hint),
        json::member(document(c), "startup"@) == Some(c.startup),
        json::member(document(c), "stop_command"@) == Some(c.stop_command),
        json::member(document(c), "default_config"@) == Some(c.default_config),
        json::member(document(c), "install_script"@) == Some(c.install_script),
        json::member(document(c), "variables"@) == Some(c.variables),
{
    lemma_document_member(c, "name"@);
    lemma_document_member(c, "description"@);
    lemma_document_member(c, "author"@);
    lemma_document_member(c, "category"@);
    lemma_document_member(c, "runtime_hint"@);
    lemma_document_member(c, "startup"@);
    lemma_document_member(c, "stop_command"@);
    lemma_document_member(c, "default_config"@);
    lemma_document_member(c, "install_script"@);
    lemma_document_member(c, "variables"@);
}

proof fn lemma_equal_members(
    a: Seq<(Seq<char>, json::Doc)>,
    b: Seq<(Seq<char>, json::Doc)>,
)
    requires
        a.len() == b.len(),
        forall|i: int|
            0 <= i < a.len() ==> #[trigger] a[i].0 == b[i].0 && json::canonical(a[i].1)
                == json::canonical(b[i].1),
    ensures
        json::canonical_members(a) == json::canonical_members(b),
    decreases a.len(),
{
    if a.len() > 0 {
        let x = a.drop_last();
        let y = b.drop_last();
        assert forall|i: int| 0 <= i < x.len() implies #[trigger] x[i].0 == y[i].0
            && json::canonical(x[i].1) == json::canonical(y[i].1) by {
            assert(a[i].0 == b[i].0);
        }
        lemma_equal_members(x, y);
        assert(a[a.len() - 1].0 == b[b.len() - 1].0);
    }
}

/// Blueprints with the same content have the same digest, where their inputs are
/// written with the same text: one that is not is a bound of zero with another
/// sign.
pub proof fn law_same_content_has_one_digest(
    a: Blueprint,
    va: json::Doc,
    b: Blueprint,
    vb: json::Doc,
)
    requires
        alike(a, b),
        json::canonical(va) == json::canonical(vb),
    ensures
        doc_digest(document(content_of(a, va))) == doc_digest(document(content_of(b, vb))),
{
    let x = content_of(a, va);
    let y = content_of(b, vb);
    assert(document_of_texts(x) == document_of_texts(y));
    let rest = json::without(document_of_texts(x)->Object_0, "variables"@);
    json::lemma_seat(rest, "variables"@);
    lemma_equal_members(
        json::with_member(document_of_texts(x)->Object_0, "variables"@, va),
        json::with_member(document_of_texts(y)->Object_0, "variables"@, vb),
    );
}

/// A revision of a blueprint: the content that it had. `id` is 0 until the
/// revision is stored.
#[derive(Debug)]
pub struct Revision {
    pub id: i64,
    pub version: i64,
    pub snapshot: Json,
    pub digest: String,
    pub author: String,
    pub note: String,
    pub created_at: String,
}

/// A revision without its content.
#[derive(Debug, Clone)]
pub struct RevisionMeta {
    pub id: i64,
    pub version: i64,
    pub digest: String,
    pub author: String,
    pub note: String,
    pub created_at: String,
}

/// A blueprint's content, its version, and its revisions, the oldest first.
#[derive(Debug)]
pub struct History {
    pub version: i64,
    pub content: Json,
    pub revisions: Vec<Revision>,
}

/// Whether `r` keeps a content as the revision at a version.
pub open spec fn keeps(
    r: Revision,
    version: int,
    content: json::Doc,
    author: Seq<char>,
    note: Seq<char>,
    created_at: Seq<char>,
) -> bool {
    &&& r.id == 0
    &&& r.version == version
    &&& r.snapshot@ == content
    &&& r.digest@ == doc_digest(content)
    &&& r.author@ == author
    &&& r.note@ == note
    &&& r.created_at@ == created_at
}

/// Place of the revision at a version.
pub open spec fn revision_at(rs: Seq<Revision>, version: i64) -> Option<int>
    decreases rs.len(),
{
    if rs.len() == 0 {
        None
    } else if rs.last().version == version {
        Some(rs.len() - 1)
    } else {
        revision_at(rs.drop_last(), version)
    }
}

/// Why a version could not be restored.
#[derive(Debug, Clone)]
pub enum RollbackError {
    NoRevision { version: i64 },
    /// A text is missing, or no text.
    Field { key: String },
    Missing { key: String },
    Corrupt { key: String },
    Variables { reason: String },
}

impl RollbackError {
    /// The message of a refusal.
    pub open spec fn text_of(self) -> Seq<char> {
        match self {
            RollbackError::NoRevision { version } => "revision "@ + text::decimal(version as int)
                + " does not exist"@,
            RollbackError::Field { key } => "revision snapshot field '"@ + key@
                + "' is missing or corrupt"@,
            RollbackError::Missing { key } => "revision snapshot field '"@ + key@
                + "' is missing"@,
            RollbackError::Corrupt { key } => "revision snapshot field '"@ + key@
                + "' is corrupt"@,
            RollbackError::Variables { reason } =>
                "revision snapshot field 'variables' is corrupt: "@ + reason@,
        }
    }

    /// The message of a refusal.
    pub fn message(&self) -> (r: String)
        ensures
            r@ == self.text_of(),
    {
        match self {
            RollbackError::NoRevision { version } => {
                let mut s = text::copy_of("revision ");
                let n = text::string_of(text::decimal_i64(*version).as_slice());
                s.append(n.as_str());
                s.append(" does not exist");
                s
            },
            RollbackError::Field { key } => {
                let mut s = text::copy_of("revision snapshot field '");
                s.append(key.as_str());
                s.append("' is missing or corrupt");
                s
            },
            RollbackError::Missing { key } => {
                let mut s = text::copy_of("revision snapshot field '");
                s.append(key.as_str());
                s.append("' is missing");
                s
            },
            RollbackError::Corrupt { key } => {
                let mut s = text::copy_of("revision snapshot field '");
                s.append(key.as_str());
                s.append("' is corrupt");
                s
            },
            RollbackError::Variables { reason } => {
                let mut s = text::copy_of("revision snapshot field 'variables' is corrupt: ");
                s.append(reason.as_str());
                s
            },
        }
    }
}

/// Whether a document has a text under a key.
pub open spec fn has_text(d: json::Doc, key: Seq<char>) -> bool {
    json::text_member(d, key) is Some
}

/// Whether a document has a text or a null under a key.
pub open spec fn has_optional(d: json::Doc, key: Seq<char>) -> bool {
    json::member(d, key) is Some && (json::member(d, key)->0 is Text || json::member(d, key)->0 is Null)
}

/// Whether a snapshot can be restored, apart from its inputs.
pub open spec fn restorable(d: json::Doc) -> bool {
    &&& has_text(d, "name"@)
    &&& has_text(d, "description"@)
    &&& has_text(d, "author"@)
    &&& has_text(d, "category"@)
    &&& has_text(d, "runtime_hint"@)
    &&& has_text(d, "startup"@)
    &&& has_text(d, "stop_command"@)
    &&& has_optional(d, "default_config"@)
    &&& has_optional(d, "install_script"@)
    &&& json::member(d, "variables"@) is Some
}

/// The content that a snapshot restores, with its inputs read anew.
pub open spec fn restored(d: json::Doc, variables: json::Doc) -> Content {
    Content {
        name: json::member(d, "name"@)->0,
        description: json::member(d, "description"@)->0,
        author: json::member(d, "author"@)->0,
        category: json::member(d, "category"@)->0,
        runtime_hint: json::member(d, "runtime_hint"@)->0,
        startup: json::member(d, "startup"@)->0,
        stop_command: json::member(d, "stop_command"@)->0,
        default_config: json::member(d, "default_config"@)->0,
        install_script: json::member(d, "install_script"@)->0,
        variables,
    }
}

/// A text that a snapshot must have.
fn snapshot_str(snap: &Json, key: &str) -> (r: Result<Json, RollbackError>)
    ensures
        match r {
            Ok(j) => has_text(snap@, key@) && json::member(snap@, key@) == Some(j@),
            Err(e) => !has_text(snap@, key@) && (e matches RollbackError::Field { key: k } && k@
                == key@),
        },
{
    match snap.get_text(key) {
        Some(s) => Ok(Json::text(s.as_str())),
        None => Err(RollbackError::Field { key: text::copy_of(key) }),
    }
}

/// A text or a null that a snapshot must have.
fn snapshot_opt_str(snap: &Json, key: &str) -> (r: Result<Json, RollbackError>)
    ensures
        match r {
            Ok(j) => has_optional(snap@, key@) && json::member(snap@, key@) == Some(j@),
            Err(e) => !has_optional(snap@, key@) && if json::member(snap@, key@) is None {
                e matches RollbackError::Missing { key: k } && k@ == key@
            } else {
                e matches RollbackError::Corrupt { key: k } && k@ == key@
            },
        },
{
    match snap.get(key) {
        None => Err(RollbackError::Missing { key: text::copy_of(key) }),
        Some(Json::Null) => Ok(Json::Null),
        Some(Json::Text(s)) => Ok(Json::text(s.as_str())),
        Some(_) => Err(RollbackError::Corrupt { key: text::copy_of(key) }),
    }
}

/// Whether `e` is why a snapshot cannot be restored: the first field that is not
/// as it must be.
pub open spec fn is_restore_error(d: json::Doc, e: RollbackError) -> bool {
    let is_field = |k: Seq<char>| e matches RollbackError::Field { key } && key@ == k;
    let is_optional = |k: Seq<char>|
        if json::member(d, k) is None {
            e matches RollbackError::Missing { key } && key@ == k
        } else {
            e matches RollbackError::Corrupt { key } && key@ == k
        };
    if !has_text(d, "name"@) {
        is_field("name"@)
    } else if !has_text(d, "description"@) {
        is_field("description"@)
    } else if !has_text(d, "author"@) {
        is_field("author"@)
    } else if !has_text(d, "category"@) {
        is_field("category"@)
    } else if !has_text(d, "runtime_hint"@) {
        is_field("runtime_hint"@)
    } else if !has_text(d, "startup"@) {
        is_field("startup"@)
    } else if !has_text(d, "stop_command"@) {
        is_field("stop_command"@)
    } else if !has_optional(d, "default_config"@) {
        is_optional("default_config"@)
    } else if !has_optional(d, "install_script"@) {
        is_optional("install_script"@)
    } else {
        e matches RollbackError::Missing { key } && key@ == "variables"@
    }
}

/// The content that a snapshot restores, with its inputs read anew.
fn restore_content(snap: &Json, variables: &Result<Json, String>) -> (r: Result<
    Json,
    RollbackError,
>)
    ensures
        match r {
            Ok(j) => restorable(snap@) && variables is Ok && j@ == document(
                restored(snap@, variables->Ok_0@),
            ),
            Err(e) => if restorable(snap@) {
                variables is Err && (e matches RollbackError::Variables { reason } && reason@
                    == variables->Err_0@)
            } else {
                is_restore_error(snap@, e)
            },
        },
{
    let name = match snapshot_str(snap, "name") {
        Ok(j) => j,
        Err(e) => {
            return Err(e);
        },
    };
    let description = match snapshot_str(snap, "description") {
        Ok(j) => j,
        Err(e) => {
            return Err(e);
        },
    };
    let author = match snapshot_str(snap, "author") {
        Ok(j) => j,
        Err(e) => {
            return Err(e);
        },
    };
    let category = match snapshot_str(snap, "category") {
        Ok(j) => j,
        Err(e) => {
            return Err(e);
        },
    };
    let runtime_hint = match snapshot_str(snap, "runtime_hint") {
        Ok(j) => j,
        Err(e) => {
            return Err(e);
        },
    };
    let startup = match snapshot_str(snap, "startup") {
        Ok(j) => j,
        Err(e) => {
            return Err(e);
        },
    };
    let stop_command = match snapshot_str(snap, "stop_command") {
        Ok(j) => j,
        Err(e) => {
            return Err(e);
        },
    };
    let default_config = match snapshot_opt_str(snap, "default_config") {
        Ok(j) => j,
        Err(e) => {
            return Err(e);
        },
    };
    let install_script = match snapshot_opt_str(snap, "install_script") {
        Ok(j) => j,
        Err(e) => {
            return Err(e);
        },
    };
    if snap.get("variables").is_none() {
        return Err(RollbackError::Missing { key: text::copy_of("variables") });
    }
    match variables {
        Err(m) => Err(RollbackError::Variables { reason: text::copy_of(m.as_str()) }),
        Ok(v) => Ok(
            build_document(
                name,
                description,
                author,
                category,
                runtime_hint,
                startup,
                stop_command,
                default_config,
                install_script,
                v.copy(),
            ),
        ),
    }
}

/// Finds the revision at a version.
fn find_revision(rs: &Vec<Revision>, version: i64) -> (r: Option<usize>)
    ensures
        match r {
            Some(i) => revision_at(rs@, version) == Some(i as int) && i < rs@.len(),
            None => revision_at(rs@, version) is None,
        },
{
    let mut n: usize = rs.len();
    assert(rs@.take(n as int) =~= rs@);
    while n > 0
        invariant
            n <= rs@.len(),
            revision_at(rs@.take(n as int), version) == revision_at(rs@, version),
        decreases n,
    {
        assert(rs@.take(n as int).last() == rs@[n - 1]);
        if rs[n - 1].version == version {
            return Some(n - 1);
        }
        assert(rs@.take(n as int).drop_last() =~= rs@.take(n - 1));
        n -= 1;
    }
    None
}

impl History {
    /// The versions of the revisions ascend, and the newest is no newer than the
    /// blueprint.
    pub open spec fn wf(self) -> bool {
        &&& forall|i: int, j: int|
            0 <= i < j < self.revisions@.len() ==> (#[trigger] self.revisions@[i]).version < (
            #[trigger] self.revisions@[j]).version
        &&& self.revisions@.len() > 0 ==> self.revisions@.last().version <= self.version
    }

    /// Keeps the present content as the revision at the next version.
    fn keep(&mut self, author: &str, note: &str, created_at: &str)
        requires
            old(self).wf(),
            old(self).version < i64::MAX,
        ensures
            final(self).wf(),
            final(self).version == old(self).version + 1,
            final(self).content == old(self).content,
            final(self).revisions@.len() == old(self).revisions@.len() + 1,
            final(self).revisions@.drop_last() == old(self).revisions@,
            keeps(
                final(self).revisions@.last(),
                old(self).version + 1,
                old(self).content@,
                author@,
                note@,
                created_at@,
            ),
    {
        let ghost before = self.revisions@;
        let next: i64 = self.version + 1;
        let snapshot = self.content.copy();
        let digest = digest_doc(&self.content);
        self.revisions.push(
            Revision {
                id: 0,
                version: next,
                snapshot,
                digest,
                author: text::copy_of(author),
                note: text::copy_of(note),
                created_at: text::copy_of(created_at),
            },
        );
        self.version = next;
        proof {
            let now = self.revisions@;
            assert(now.drop_last() =~= before);
            assert forall|i: int, j: int| 0 <= i < j < now.len() implies (
            #[trigger] now[i]).version < (#[trigger] now[j]).version by {
                assert(now[i] == before[i]);
                if j < before.len() {
                    assert(now[j] == before[j]);
                } else if i < before.len() - 1 {
                    assert(before[i].version < before[before.len() - 1].version);
                }
            }
        }
    }

    /// Keeps the present content as the revision at the next version, which
    /// becomes the blueprint's.
    pub fn snapshot(&mut self, author: &str, note: &str, created_at: &str) -> (r: i64)
        requires
            old(self).wf(),
            old(self).version < i64::MAX,
        ensures
            final(self).wf(),
            r == old(self).version + 1,
            final(self).version == r,
            final(self).content@ == old(self).content@,
            final(self).revisions@.drop_last() == old(self).revisions@,
            final(self).revisions@.len() > 0,
            keeps(
                final(self).revisions@.last(),
                r as int,
                old(self).content@,
                author@,
                note@,
                created_at@,
            ),
    {
        self.keep(author, note, created_at);
        self.version
    }

    /// Keeps the present content as the revision at the next version, then takes
    /// on new content.
    pub fn snapshot_and_update(
        &mut self,
        updated: Json,
        author: &str,
        note: &str,
        created_at: &str,
    ) -> (r: i64)
        requires
            old(self).wf(),
            old(self).version < i64::MAX,
        ensures
            final(self).wf(),
            r == old(self).version + 1,
            final(self).version == r,
            final(self).content@ == updated@,
            final(self).revisions@.drop_last() == old(self).revisions@,
            final(self).revisions@.len() > 0,
            keeps(
                final(self).revisions@.last(),
                r as int,
                old(self).content@,
                author@,
                note@,
                created_at@,
            ),
    {
        self.keep(author, note, created_at);
        self.content = updated;
        self.version
    }

    /// Restores the content of a past revision. The present content is kept as the
    /// revision at the next version, so that the rollback can be undone itself.
    /// `variables` are the snapshot's inputs, read and written anew, or why they
    /// could not be read.
    pub fn rollback_with_note(
        &mut self,
        version: i64,
        variables: &Result<Json, String>,
        author: &str,
        note: &str,
        created_at: &str,
    ) -> (r: Result<i64, RollbackError>)
        requires
            old(self).wf(),
            old(self).version < i64::MAX,
        ensures
            final(self).wf(),
            match r {
                Ok(next) => {
                    let at = revision_at(old(self).revisions@, version);
                    &&& at is Some
                    &&& next == old(self).version + 1
                    &&& final(self).version == next
                    &&& variables is Ok
                    &&& restorable(old(self).revisions@[at->0].snapshot@)
                    &&& final(self).content@ == document(
                        restored(old(self).revisions@[at->0].snapshot@, variables->Ok_0@),
                    )
                    &&& final(self).revisions@.drop_last() == old(self).revisions@
                    &&& final(self).revisions@.len() > 0
                    &&& keeps(
                        final(self).revisions@.last(),
                        next as int,
                        old(self).content@,
                        author@,
                        note@,
                        created_at@,
                    )
                },
                Err(e) => *final(self) == *old(self) && match revision_at(
                    old(self).revisions@,
                    version,
                ) {
                    None => e == (RollbackError::NoRevision { version }),
                    Some(i) => if restorable(old(self).revisions@[i].snapshot@) {
                        variables is Err && (e matches RollbackError::Variables { reason } && reason@
                            == variables->Err_0@)
                    } else {
                        is_restore_error(old(self).revisions@[i].snapshot@, e)
                    },
                },
            },
    {
        let at = match find_revision(&self.revisions, version) {
            Some(i) => i,
            None => {
                return Err(RollbackError::NoRevision { version });
            },
        };
        let content = match restore_content(&self.revisions[at].snapshot, variables) {
            Ok(j) => j,
            Err(e) => {
                return Err(e);
            },
        };
        self.keep(author, note, created_at);
        self.content = content;
        Ok(self.version)
    }

    /// Restores the content of a past revision, with a note that says so.
    pub fn rollback(
        &mut self,
        version: i64,
        variables: &Result<Json, String>,
        author: &str,
        created_at: &str,
    ) -> (r: Result<i64, RollbackError>)
        requires
            old(self).wf(),
            old(self).version < i64::MAX,
        ensures
            final(self).wf(),
            match r {
                Ok(next) => {
                    let at = revision_at(old(self).revisions@, version);
                    &&& at is Some
                    &&& next == old(self).version + 1
                    &&& final(self).version == next
                    &&& variables is Ok
                    &&& restorable(old(self).revisions@[at->0].snapshot@)
                    &&& final(self).content@ == document(
                        restored(old(self).revisions@[at->0].snapshot@, variables->Ok_0@),
                    )
                    &&& final(self).revisions@.drop_last() == old(self).revisions@
                    &&& final(self).revisions@.len() > 0
                    &&& keeps(
                        final(self).revisions@.last(),
                        next as int,
                        old(self).content@,
                        author@,
                        "rollback to v"@ + text::decimal(version as int),
                        created_at@,
                    )
                },
                Err(e) => *final(self) == *old(self) && match revision_at(
                    old(self).revisions@,
                    version,
                ) {
                    None => e == (RollbackError::NoRevision { version }),
                    Some(i) => if restorable(old(self).revisions@[i].snapshot@) {
                        variables is Err && (e matches RollbackError::Variables { reason } && reason@
                            == variables->Err_0@)
                    } else {
                        is_restore_error(old(self).revisions@[i].snapshot@, e)
                    },
                },
            },
    {
        let mut note = text::copy_of("rollback to v");
        let n = text::string_of(text::decimal_i64(version).as_slice());
        note.append(n.as_str());
        self.rollback_with_note(version, variables, author, note.as_str(), created_at)
    }

    /// The revisions without their content, the newest first.
    pub fn list_revisions(&self) -> (r: Vec<RevisionMeta>)
        ensures
            r@.len() == self.revisions@.len(),
            forall|i: int|
                0 <= i < r@.len() ==> is_meta(
                    self.revisions@[self.revisions@.len() - 1 - i],
                    #[trigger] r@[i],
                ),
    {
        let mut out: Vec<RevisionMeta> = Vec::new();
        let mut n: usize = self.revisions.len();
        while n > 0
            invariant
                n <= self.revisions@.len(),
                out@.len() == self.revisions@.len() - n,
                forall|i: int|
                    0 <= i < out@.len() ==> is_meta(
                        self.revisions@[self.revisions@.len() - 1 - i],
                        #[trigger] out@[i],
                    ),
            decreases n,
        {
            let rev = &self.revisions[n - 1];
            out.push(
                RevisionMeta {
                    id: rev.id,
                    version: rev.version,
                    digest: text::copy_of(rev.digest.as_str()),
                    author: text::copy_of(rev.author.as_str()),
                    note: text::copy_of(rev.note.as_str()),
                    created_at: text::copy_of(rev.created_at.as_str()),
                },
            );
            n -= 1;
        }
        out
    }

    /// The content of the revision at a version.
    pub fn revision_snapshot(&self, version: i64) -> (r: Result<Json, RollbackError>)
        ensures
            match revision_at(self.revisions@, version) {
                Some(i) => r is Ok && r->Ok_0@ == self.revisions@[i].snapshot@,
                None => r == Err::<Json, RollbackError>(RollbackError::NoRevision { version }),
            },
    {
        match find_revision(&self.revisions, version) {
            Some(i) => Ok(self.revisions[i].snapshot.copy()),
            None => Err(RollbackError::NoRevision { version }),
        }
    }
}

/// Whether `m` is a revision without its content.
pub open spec fn is_meta(r: Revision, m: RevisionMeta) -> bool {
    &&& m.id == r.id
    &&& m.version == r.version
    &&& m.digest@ == r.digest@
    &&& m.author@ == r.author@
    &&& m.note@ == r.note@
    &&& m.created_at@ == r.created_at@
}

/// A content document can be restored, and restores to itself where its inputs
/// read as they were written.
pub proof fn law_content_restores_to_itself(b: Blueprint, variables: json::Doc)
    ensures
        restorable(document(content_of(b, variables))),
        document(restored(document(content_of(b, variables)), variables)) == document(
            content_of(b, variables),
        ),
{
    law_document_keeps_every_field(content_of(b, variables));
}

/// The revision that was kept last is the one found at its version.
pub proof fn law_newest_revision_is_found(rs: Seq<Revision>)
    requires
        rs.len() > 0,
    ensures
        revision_at(rs, rs.last().version) == Some(rs.len() - 1),
{
}

/// A rollback is undone by rolling back to the version that it made: the content
/// before it comes back.
pub proof fn law_rollback_can_be_undone(
    before: Blueprint,
    variables: json::Doc,
    kept: Seq<Revision>,
    undone: json::Doc,
)
    requires
        kept.len() > 0,
        kept.last().snapshot@ == document(content_of(before, variables)),
        undone == document(
            restored(
                kept[revision_at(kept, kept.last().version)->0].snapshot@,
                variables,
            ),
        ),
    ensures
        undone == document(content_of(before, variables)),
{
    law_newest_revision_is_found(kept);
    law_content_restores_to_itself(before, variables);
}

/// A server that runs a blueprint, and the version that it is pinned to.
#[derive(Debug, Clone)]
pub struct PinnedServer {
    pub id: i64,
    pub name: String,
    pub pinned_version: i64,
}

/// How far a server has drifted from its blueprint.
#[derive(Debug, Clone)]
pub struct Drift {
    pub server_id: i64,
    pub server_name: String,
    pub pinned_version: i64,
    pub current_version: i64,
    pub fields: Vec<String>,
}

/// The fields that drift is told of, in order.
pub open spec fn drift_keys() -> Seq<Seq<char>> {
    seq![
        "name"@,
        "description"@,
        "author"@,
        "category"@,
        "runtime_hint"@,
        "startup"@,
        "stop_command"@,
        "default_config"@,
        "install_script"@,
        "variables"@,
    ]
}

/// Whether two documents differ under a key: one alone has it, or the two say
/// different things there.
pub open spec fn differ(a: json::Doc, b: json::Doc, key: Seq<char>) -> bool {
    match (json::member(a, key), json::member(b, key)) {
        (None, None) => false,
        (Some(x), Some(y)) => !json::equal(x, y),
        _ => true,
    }
}

/// The fields among some keys whose values differ.
pub open spec fn differing(keys: Seq<Seq<char>>, a: json::Doc, b: json::Doc) -> Seq<Seq<char>>
    decreases keys.len(),
{
    if keys.len() == 0 {
        Seq::empty()
    } else {
        let before = differing(keys.drop_last(), a, b);
        if differ(a, b, keys.last()) {
            before.push(keys.last())
        } else {
            before
        }
    }
}

/// Whether two documents differ under a key.
fn differs(a: &Json, b: &Json, key: &str) -> (r: bool)
    ensures
        r == differ(a@, b@, key@),
{
    match (a.get(key), b.get(key)) {
        (None, None) => false,
        (Some(x), Some(y)) => !x.same(y),
        _ => true,
    }
}

fn keys_of_drift() -> (r: Vec<String>)
    ensures
        text::views(r@) == drift_keys(),
{
    let mut v: Vec<String> = Vec::new();
    v.push(text::copy_of("name"));
    v.push(text::copy_of("description"));
    v.push(text::copy_of("author"));
    v.push(text::copy_of("category"));
    v.push(text::copy_of("runtime_hint"));
    v.push(text::copy_of("startup"));
    v.push(text::copy_of("stop_command"));
    v.push(text::copy_of("default_config"));
    v.push(text::copy_of("install_script"));
    v.push(text::copy_of("variables"));
    assert(text::views(v@) =~= drift_keys());
    v
}

/// The fields whose values differ between a pinned revision and the present
/// content.
pub fn diff_revisions(pinned: &Json, current: &Json) -> (r: Vec<String>)
    ensures
        text::views(r@) == differing(drift_keys(), pinned@, current@),
{
    let keys = keys_of_drift();
    let ghost all = drift_keys();
    let mut out: Vec<String> = Vec::new();
    let mut i: usize = 0;
    assert(text::views(out@) =~= differing(all.take(0), pinned@, current@));
    while i < keys.len()
        invariant
            i <= keys@.len(),
            text::views(keys@) == all,
            text::views(out@) == differing(all.take(i as int), pinned@, current@),
        decreases keys.len() - i,
    {
        assert(all.take(i + 1).drop_last() =~= all.take(i as int));
        assert(all[i as int] == keys@[i as int]@);
        if differs(pinned, current, keys[i].as_str()) {
            let ghost before = text::views(out@);
            out.push(text::copy_of(keys[i].as_str()));
            assert(text::views(out@) =~= before.push(all[i as int]));
        }
        i += 1;
    }
    assert(all.take(i as int) =~= all);
    out
}

/// Content does not differ from itself in any field.
pub proof fn law_no_drift_from_oneself(keys: Seq<Seq<char>>, d: json::Doc)
    ensures
        differing(keys, d, d).len() == 0,
    decreases keys.len(),
{
    if keys.len() > 0 {
        law_no_drift_from_oneself(keys.drop_last(), d);
    }
}

/// Whether a server is told of in a drift report: it is not pinned at all, or
/// pinned to a known revision that is behind.
pub open spec fn has_drift(h: History, s: PinnedServer) -> bool {
    s.pinned_version == 0 || (s.pinned_version < h.version && revision_at(
        h.revisions@,
        s.pinned_version,
    ) is Some)
}

/// Whether `d` is what a drift report says of a server.
pub open spec fn is_drift(h: History, s: PinnedServer, d: Drift) -> bool {
    &&& d.server_id == s.id
    &&& d.server_name@ == s.name@
    &&& d.pinned_version == s.pinned_version
    &&& d.current_version == h.version
    &&& text::views(d.fields@) == if s.pinned_version == 0 {
        seq!["unpinned"@]
    } else {
        differing(
            drift_keys(),
            h.revisions@[revision_at(h.revisions@, s.pinned_version)->0].snapshot@,
            h.content@,
        )
    }
}

/// The servers that a drift report tells of.
pub open spec fn drifted(h: History, ss: Seq<PinnedServer>) -> Seq<PinnedServer> {
    ss.filter(|s: PinnedServer| has_drift(h, s))
}

/// What a drift report says of one server.
fn drift_of(h: &History, s: &PinnedServer) -> (r: Option<Drift>)
    ensures
        match r {
            Some(d) => has_drift(*h, *s) && is_drift(*h, *s, d),
            None => !has_drift(*h, *s),
        },
{
    let fields = if s.pinned_version == 0 {
        let mut v: Vec<String> = Vec::new();
        v.push(text::copy_of("unpinned"));
        assert(text::views(v@) =~= seq!["unpinned"@]);
        v
    } else {
        if s.pinned_version >= h.version {
            return None;
        }
        match find_revision(&h.revisions, s.pinned_version) {
            None => {
                return None;
            },
            Some(i) => diff_revisions(&h.revisions[i].snapshot, &h.content),
        }
    };
    Some(
        Drift {
            server_id: s.id,
            server_name: text::copy_of(s.name.as_str()),
            pinned_version: s.pinned_version,
            current_version: h.version,
            fields,
        },
    )
}

/// The drift report for the servers of a blueprint, in their order: those that
/// are in step are left out.
pub fn drift_for_blueprint(h: &History, servers: &Vec<PinnedServer>) -> (r: Vec<Drift>)
    ensures
        r@.len() == drifted(*h, servers@).len(),
        forall|i: int|
            0 <= i < r@.len() ==> is_drift(*h, drifted(*h, servers@)[i], #[trigger] r@[i]),
{
    let ghost test = |s: PinnedServer| has_drift(*h, s);
    let ghost all = servers@;
    let mut out: Vec<Drift> = Vec::new();
    let mut i: usize = 0;
    assert(all.take(0).filter(test) =~= Seq::<PinnedServer>::empty()) by {
        reveal(Seq::filter);
    }
    while i < servers.len()
        invariant
            i <= servers@.len(),
            all == servers@,
            test == (|s: PinnedServer| has_drift(*h, s)),
            out@.len() == all.take(i as int).filter(test).len(),
            forall|k: int|
                0 <= k < out@.len() ==> is_drift(
                    *h,
                    all.take(i as int).filter(test)[k],
                    #[trigger] out@[k],
                ),
        decreases servers.len() - i,
    {
        proof {
            assert(all.take(i + 1) =~= all.take(i as int).push(all[i as int]));
            all.take(i as int).lemma_filter_push(all[i as int], test);
        }
        if let Some(d) = drift_of(h, &servers[i]) {
            out.push(d);
        }
        i += 1;
    }
    assert(all.take(i as int) =~= all);
    out
}

/// Why a server could not be pinned.
#[derive(Debug, Clone, Copy, PartialEq, Eq, Structural)]
pub enum PinError {
    NoServer,
    NoRevision { version: i64 },
}

/// Pins a server to a revision of its blueprint, or unpins it with 0; `history` is
/// none where the server is not there.
pub fn pin_server(history: Option<&History>, version: i64) -> (r: Result<i64, PinError>)
    ensures
        match r {
            Ok(v) => v == version && history is Some && (version == 0 || revision_at(
                history->0.revisions@,
                version,
            ) is Some),
            Err(e) => match history {
                None => e == PinError::NoServer,
                Some(h) => version != 0 && revision_at(h.revisions@, version) is None && e == (
                PinError::NoRevision { version }),
            },
        },
{
    match history {
        None => Err(PinError::NoServer),
        Some(h) => {
            if version == 0 {
                return Ok(version);
            }
            match find_revision(&h.revisions, version) {
                Some(_) => Ok(version),
                None => Err(PinError::NoRevision { version }),
            }
        },
    }
}

} // verus!
