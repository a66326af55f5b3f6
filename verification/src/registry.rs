//! The workspace registry: a versioned TOML configuration, and the immutable
//! set of workspace contexts built from it at startup.
//!
//! Requests never choose filesystem roots. Whether two roots are the same
//! directory, or one lies inside the other, is decided by filesystem
//! identity, never by path text.
use crate::permissions::{Permissions, SetupError};
use crate::text;
use crate::workspace;
use crate::workspace::{FullPath, PathView, Workspace, WorkspaceContext};
use crate::workspace_id;
use crate::workspace_id::WorkspaceId;
use std::sync::Arc;
use vstd::prelude::*;

verus! {

broadcast use vstd::string::group_string_axioms;

/// The only supported configuration format version.
pub const SUPPORTED_CONFIG_VERSION: u64 = 1;

/// The most workspaces that a configuration may declare.
pub const MAX_REGISTRY_WORKSPACES: usize = 64;

// ---------------------------------------------------------------------------
// The document
// ---------------------------------------------------------------------------

/// A value of a configuration document.
#[derive(Debug)]
pub enum TomlNode {
    /// A string.
    Text(String),
    /// An integer.
    Integer(i64),
    /// A boolean.
    Boolean(bool),
    /// An array.
    Array(Vec<TomlNode>),
    /// A table.
    Table(Vec<TomlItem>),
    /// A value of any other kind.
    Other,
}

/// A key and its value.
#[derive(Debug)]
pub struct TomlItem {
    /// The key.
    pub key: String,
    /// The value.
    pub value: TomlNode,
}

/// `toml::Value`, a value of a parsed document.
#[verifier::external_type_specification]
#[verifier::external_body]
pub struct ExTomlValue(toml::Value);

/// What a parsed value holds.
pub uninterp spec fn value_node(value: toml::Value) -> TomlNode;

/// The document that a TOML text writes, or why it is not one.
pub uninterp spec fn toml_document(raw: Seq<char>) -> Result<Seq<TomlItem>, Seq<char>>;

/// Parses a TOML text with `toml::from_str`, whose result depends on the text
/// alone and is named [`toml_document`]. A document is a table.
#[verifier::external_body]
fn parse_toml(raw: &str) -> (result: Result<toml::Value, String>)
    ensures
        match result {
            Ok(value) => value_node(value) matches TomlNode::Table(items) && toml_document(raw@)
                == Ok::<Seq<TomlItem>, Seq<char>>(items@),
            Err(e) => toml_document(raw@) == Err::<Seq<TomlItem>, Seq<char>>(e@),
        },
{
    toml::from_str::<toml::Table>(raw).map(toml::Value::Table).map_err(|e| e.to_string())
}

/// Turns a `toml::Value` into plain values: a table with its `into_iter`, one
/// item for each key, and an array element by element. What it holds is named
/// [`value_node`].
#[verifier::external_body]
fn into_node(value: toml::Value) -> (node: TomlNode)
    ensures
        node == value_node(value),
{
    match value {
        toml::Value::String(s) => TomlNode::Text(s),
        toml::Value::Integer(n) => TomlNode::Integer(n),
        toml::Value::Boolean(b) => TomlNode::Boolean(b),
        toml::Value::Array(a) => TomlNode::Array(a.into_iter().map(into_node).collect()),
        toml::Value::Table(t) => TomlNode::Table(
            t.into_iter().map(|(key, v)| TomlItem { key, value: into_node(v) }).collect(),
        ),
        toml::Value::Float(_) => TomlNode::Other,
        toml::Value::Datetime(_) => TomlNode::Other,
    }
}

// ---------------------------------------------------------------------------
// The schema
// ---------------------------------------------------------------------------

/// The value of the first item with the given key, from index `k` on.
pub open spec fn lookup(items: Seq<TomlItem>, key: Seq<char>, k: int) -> Option<TomlNode>
    decreases items.len() - k,
{
    if k < 0 || k >= items.len() {
        None
    } else if items[k].key@ == key {
        Some(items[k].value)
    } else {
        lookup(items, key, k + 1)
    }
}

/// What is wrong with one field of a workspace declaration. Unknown fields
/// are refused, so that a misspelt capability cannot pass unnoticed.
pub open spec fn field_fault(item: TomlItem) -> Option<Seq<char>> {
    if item.key@ == "root"@ {
        if item.value is Text {
            None
        } else {
            Some("invalid type for field `root`, expected a string"@)
        }
    } else if item.key@ == "write"@ || item.key@ == "exec"@ || item.key@ == "allow_shell"@ {
        if item.value is Boolean {
            None
        } else {
            Some("invalid type for field `"@ + item.key@ + "`, expected a boolean"@)
        }
    } else {
        Some(
            "unknown field `"@ + item.key@
                + "`, expected one of `root`, `write`, `exec`, `allow_shell`"@,
        )
    }
}

/// The first fault among the fields from index `k` on.
pub open spec fn fields_fault(items: Seq<TomlItem>, k: int) -> Option<Seq<char>>
    decreases items.len() - k,
{
    if k < 0 || k >= items.len() {
        None
    } else {
        match field_fault(items[k]) {
            Some(fault) => Some(fault),
            None => fields_fault(items, k + 1),
        }
    }
}

/// What is wrong with the element of an array that stands for a capability;
/// elements may be left off at the end.
pub open spec fn listed_flag_fault(values: Seq<TomlNode>, k: int, key: Seq<char>) -> Option<
    Seq<char>,
> {
    if k < values.len() && !(values[k] is Boolean) {
        Some("invalid type for field `"@ + key + "`, expected a boolean"@)
    } else {
        None
    }
}

/// What is wrong with a workspace declaration that lists the values of the
/// fields in order. What follows the last field is passed over.
pub open spec fn listed_fault(values: Seq<TomlNode>) -> Option<Seq<char>> {
    if values.len() == 0 {
        Some("invalid length 0, expected struct WorkspaceConfigEntry with 4 elements"@)
    } else if !(values[0] is Text) {
        Some("invalid type for field `root`, expected a string"@)
    } else {
        either(
            listed_flag_fault(values, 1, "write"@),
            either(
                listed_flag_fault(values, 2, "exec"@),
                listed_flag_fault(values, 3, "allow_shell"@),
            ),
        )
    }
}

/// What is wrong with one workspace declaration.
pub open spec fn entry_fault(item: TomlItem) -> Option<Seq<char>> {
    match item.value {
        TomlNode::Table(fields) => match fields_fault(fields@, 0) {
            Some(fault) => Some(fault),
            None => if lookup(fields@, "root"@, 0) is None {
                Some("missing field `root`"@)
            } else {
                None
            },
        },
        TomlNode::Array(values) => listed_fault(values@),
        _ => Some("invalid type for workspace `"@ + item.key@ + "`, expected a table"@),
    }
}

/// The first fault among the declarations from index `k` on.
pub open spec fn entries_fault(items: Seq<TomlItem>, k: int) -> Option<Seq<char>>
    decreases items.len() - k,
{
    if k < 0 || k >= items.len() {
        None
    } else {
        match entry_fault(items[k]) {
            Some(fault) => Some(fault),
            None => entries_fault(items, k + 1),
        }
    }
}

/// What is wrong with one top-level field.
pub open spec fn top_fault(item: TomlItem) -> Option<Seq<char>> {
    if item.key@ == "version"@ {
        match item.value {
            TomlNode::Integer(n) => if n < 0 {
                Some("invalid value for field `version`, expected an unsigned integer"@)
            } else {
                None
            },
            _ => Some("invalid type for field `version`, expected an unsigned integer"@),
        }
    } else if item.key@ == "workspaces"@ {
        match item.value {
            TomlNode::Table(entries) => entries_fault(entries@, 0),
            _ => Some("invalid type for field `workspaces`, expected a table"@),
        }
    } else {
        Some("unknown field `"@ + item.key@ + "`, expected `version` or `workspaces`"@)
    }
}

/// The first fault among the top-level fields from index `k` on.
pub open spec fn tops_fault(items: Seq<TomlItem>, k: int) -> Option<Seq<char>>
    decreases items.len() - k,
{
    if k < 0 || k >= items.len() {
        None
    } else {
        match top_fault(items[k]) {
            Some(fault) => Some(fault),
            None => tops_fault(items, k + 1),
        }
    }
}

/// What is wrong with a document.
pub open spec fn schema_fault(items: Seq<TomlItem>) -> Option<Seq<char>> {
    match tops_fault(items, 0) {
        Some(fault) => Some(fault),
        None => if lookup(items, "version"@, 0) is None {
            Some("missing field `version`"@)
        } else if lookup(items, "workspaces"@, 0) is None {
            Some("missing field `workspaces`"@)
        } else {
            None
        },
    }
}

/// One declared workspace.
#[derive(Debug)]
pub struct WorkspaceConfigEntry {
    /// The id as written.
    pub id: String,
    /// The root as written.
    pub root: String,
    /// Whether writing is allowed.
    pub write: bool,
    /// Whether running programs is allowed.
    pub execute: bool,
    /// Whether a shell is allowed.
    pub allow_shell: bool,
}

/// What a [`WorkspaceConfigEntry`] declares.
#[verifier::ext_equal]
pub struct EntryView {
    /// The id as written.
    pub id: Seq<char>,
    /// The root as written.
    pub root: Seq<char>,
    /// Whether writing is allowed.
    pub write: bool,
    /// Whether running programs is allowed.
    pub execute: bool,
    /// Whether a shell is allowed.
    pub allow_shell: bool,
}

impl View for WorkspaceConfigEntry {
    type V = EntryView;

    open spec fn view(&self) -> EntryView {
        EntryView {
            id: self.id@,
            root: self.root@,
            write: self.write,
            execute: self.execute,
            allow_shell: self.allow_shell,
        }
    }
}

/// What a list of declarations declares.
pub open spec fn entry_views(entries: Seq<WorkspaceConfigEntry>) -> Seq<EntryView> {
    entries.map_values(|entry: WorkspaceConfigEntry| entry@)
}

/// A capability: off unless the declaration turns it on.
pub open spec fn flag(fields: Seq<TomlItem>, key: Seq<char>) -> bool {
    lookup(fields, key, 0) == Some(TomlNode::Boolean(true))
}

/// A capability in an array: off unless its element turns it on.
pub open spec fn listed_flag(values: Seq<TomlNode>, k: int) -> bool {
    k < values.len() && values[k] == TomlNode::Boolean(true)
}

/// The workspace that an item of the `workspaces` table declares.
pub open spec fn declared_entry(item: TomlItem) -> EntryView {
    match item.value {
        TomlNode::Array(values) => EntryView {
            id: item.key@,
            root: values@[0]->Text_0@,
            write: listed_flag(values@, 1),
            execute: listed_flag(values@, 2),
            allow_shell: listed_flag(values@, 3),
        },
        _ => {
            let fields = item.value->Table_0@;
            EntryView {
                id: item.key@,
                root: lookup(fields, "root"@, 0).unwrap()->Text_0@,
                write: flag(fields, "write"@),
                execute: flag(fields, "exec"@),
                allow_shell: flag(fields, "allow_shell"@),
            }
        },
    }
}

/// `entries` with `entry` put in front of the first one whose id comes after
/// its own.
pub open spec fn inserted(entries: Seq<EntryView>, entry: EntryView) -> Seq<EntryView>
    decreases entries.len(),
{
    if entries.len() > 0 && text::precedes(entry.id, entries.last().id) {
        inserted(entries.drop_last(), entry).push(entries.last())
    } else {
        entries.push(entry)
    }
}

/// The declared workspaces in the order of their ids.
pub open spec fn declared_entries(items: Seq<TomlItem>) -> Seq<EntryView>
    decreases items.len(),
{
    if items.len() == 0 {
        Seq::empty()
    } else {
        inserted(declared_entries(items.drop_last()), declared_entry(items.last()))
    }
}

/// A configuration that meets the schema.
#[derive(Debug)]
pub struct WorkspaceConfigFile {
    /// The format version.
    pub version: u64,
    /// The declared workspaces, in the order of their ids.
    pub workspaces: Vec<WorkspaceConfigEntry>,
}

/// The version that a document without fault declares.
pub open spec fn declared_version(items: Seq<TomlItem>) -> u64 {
    lookup(items, "version"@, 0).unwrap()->Integer_0 as u64
}

/// The declarations of a document without fault.
pub open spec fn declared_workspaces(items: Seq<TomlItem>) -> Seq<EntryView> {
    declared_entries(lookup(items, "workspaces"@, 0).unwrap()->Table_0@)
}

fn find_item<'a>(items: &'a Vec<TomlItem>, key: &str) -> (value: Option<&'a TomlNode>)
    ensures
        match value {
            Some(node) => lookup(items@, key@, 0) == Some(*node),
            None => lookup(items@, key@, 0) is None,
        },
{
    let mut k: usize = 0;
    while k < items.len()
        invariant
            k <= items@.len(),
            lookup(items@, key@, k as int) == lookup(items@, key@, 0),
        decreases items.len() - k,
    {
        if text::same_text(items[k].key.as_str(), key) {
            return Some(&items[k].value);
        }
        k += 1;
    }
    None
}

fn check_field(item: &TomlItem) -> (fault: Option<String>)
    ensures
        match fault {
            Some(s) => field_fault(*item) == Some(s@),
            None => field_fault(*item) is None,
        },
{
    let key: &str = item.key.as_str();
    if text::same_text(key, "root") {
        match &item.value {
            TomlNode::Text(_) => None,
            _ => Some(String::from_str("invalid type for field `root`, expected a string")),
        }
    } else if text::same_text(key, "write") || text::same_text(key, "exec") || text::same_text(
        key,
        "allow_shell",
    ) {
        match &item.value {
            TomlNode::Boolean(_) => None,
            _ => Some(
                String::from_str("invalid type for field `").concat(key).concat(
                    "`, expected a boolean",
                ),
            ),
        }
    } else {
        Some(
            String::from_str("unknown field `").concat(key).concat(
                "`, expected one of `root`, `write`, `exec`, `allow_shell`",
            ),
        )
    }
}

fn check_fields(items: &Vec<TomlItem>) -> (fault: Option<String>)
    ensures
        match fault {
            Some(s) => fields_fault(items@, 0) == Some(s@),
            None => fields_fault(items@, 0) is None,
        },
{
    let mut k: usize = 0;
    while k < items.len()
        invariant
            k <= items@.len(),
            fields_fault(items@, k as int) == fields_fault(items@, 0),
        decreases items.len() - k,
    {
        if let Some(fault) = check_field(&items[k]) {
            return Some(fault);
        }
        k += 1;
    }
    None
}

fn check_listed_flag(values: &Vec<TomlNode>, k: usize, key: &str) -> (fault: Option<String>)
    ensures
        match fault {
            Some(s) => listed_flag_fault(values@, k as int, key@) == Some(s@),
            None => listed_flag_fault(values@, k as int, key@) is None,
        },
{
    if k >= values.len() {
        return None;
    }
    match &values[k] {
        TomlNode::Boolean(_) => None,
        _ => Some(
            String::from_str("invalid type for field `").concat(key).concat(
                "`, expected a boolean",
            ),
        ),
    }
}

fn check_listed(values: &Vec<TomlNode>) -> (fault: Option<String>)
    ensures
        match fault {
            Some(s) => listed_fault(values@) == Some(s@),
            None => listed_fault(values@) is None,
        },
{
    if values.len() == 0 {
        return Some(
            String::from_str(
                "invalid length 0, expected struct WorkspaceConfigEntry with 4 elements",
            ),
        );
    }
    match &values[0] {
        TomlNode::Text(_) => {},
        _ => {
            return Some(String::from_str("invalid type for field `root`, expected a string"));
        },
    }
    if let Some(fault) = check_listed_flag(values, 1, "write") {
        return Some(fault);
    }
    if let Some(fault) = check_listed_flag(values, 2, "exec") {
        return Some(fault);
    }
    check_listed_flag(values, 3, "allow_shell")
}

fn check_entries(items: &Vec<TomlItem>) -> (fault: Option<String>)
    ensures
        match fault {
            Some(s) => entries_fault(items@, 0) == Some(s@),
            None => entries_fault(items@, 0) is None,
        },
{
    let mut k: usize = 0;
    while k < items.len()
        invariant
            k <= items@.len(),
            entries_fault(items@, k as int) == entries_fault(items@, 0),
        decreases items.len() - k,
    {
        match &items[k].value {
            TomlNode::Table(fields) => {
                if let Some(fault) = check_fields(fields) {
                    return Some(fault);
                }
                if find_item(fields, "root").is_none() {
                    return Some(String::from_str("missing field `root`"));
                }
            },
            TomlNode::Array(values) => {
                if let Some(fault) = check_listed(values) {
                    return Some(fault);
                }
            },
            _ => {
                return Some(
                    String::from_str("invalid type for workspace `").concat(
                        items[k].key.as_str(),
                    ).concat("`, expected a table"),
                );
            },
        }
        k += 1;
    }
    None
}

fn check_top(item: &TomlItem) -> (fault: Option<String>)
    ensures
        match fault {
            Some(s) => top_fault(*item) == Some(s@),
            None => top_fault(*item) is None,
        },
{
    let key: &str = item.key.as_str();
    if text::same_text(key, "version") {
        match &item.value {
            TomlNode::Integer(n) => if *n < 0 {
                Some(
                    String::from_str(
                        "invalid value for field `version`, expected an unsigned integer",
                    ),
                )
            } else {
                None
            },
            _ => Some(
                String::from_str("invalid type for field `version`, expected an unsigned integer"),
            ),
        }
    } else if text::same_text(key, "workspaces") {
        match &item.value {
            TomlNode::Table(entries) => check_entries(entries),
            _ => Some(String::from_str("invalid type for field `workspaces`, expected a table")),
        }
    } else {
        Some(
            String::from_str("unknown field `").concat(key).concat(
                "`, expected `version` or `workspaces`",
            ),
        )
    }
}

fn check_tops(items: &Vec<TomlItem>) -> (fault: Option<String>)
    ensures
        match fault {
            Some(s) => tops_fault(items@, 0) == Some(s@),
            None => tops_fault(items@, 0) is None,
        },
{
    let mut k: usize = 0;
    while k < items.len()
        invariant
            k <= items@.len(),
            tops_fault(items@, k as int) == tops_fault(items@, 0),
        decreases items.len() - k,
    {
        if let Some(fault) = check_top(&items[k]) {
            return Some(fault);
        }
        k += 1;
    }
    None
}

fn find_flag(fields: &Vec<TomlItem>, key: &str) -> (on: bool)
    ensures
        on == flag(fields@, key@),
{
    match find_item(fields, key) {
        Some(TomlNode::Boolean(b)) => *b,
        _ => false,
    }
}

fn listed_on(values: &Vec<TomlNode>, k: usize) -> (on: bool)
    ensures
        on == listed_flag(values@, k as int),
{
    if k >= values.len() {
        return false;
    }
    match &values[k] {
        TomlNode::Boolean(b) => *b,
        _ => false,
    }
}

fn read_listed(id: &str, values: &Vec<TomlNode>, root: &String) -> (entry: WorkspaceConfigEntry)
    ensures
        entry@ == (EntryView {
            id: id@,
            root: root@,
            write: listed_flag(values@, 1),
            execute: listed_flag(values@, 2),
            allow_shell: listed_flag(values@, 3),
        }),
{
    WorkspaceConfigEntry {
        id: String::from_str(id),
        root: root.clone(),
        write: listed_on(values, 1),
        execute: listed_on(values, 2),
        allow_shell: listed_on(values, 3),
    }
}

fn read_entry(id: &str, fields: &Vec<TomlItem>, root: &String) -> (entry: WorkspaceConfigEntry)
    ensures
        entry@ == (EntryView {
            id: id@,
            root: root@,
            write: flag(fields@, "write"@),
            execute: flag(fields@, "exec"@),
            allow_shell: flag(fields@, "allow_shell"@),
        }),
{
    WorkspaceConfigEntry {
        id: String::from_str(id),
        root: root.clone(),
        write: find_flag(fields, "write"),
        execute: find_flag(fields, "exec"),
        allow_shell: find_flag(fields, "allow_shell"),
    }
}

fn insert_entry(entries: &mut Vec<WorkspaceConfigEntry>, entry: WorkspaceConfigEntry)
    ensures
        entry_views(final(entries)@) == inserted(entry_views(old(entries)@), entry@),
{
    let ghost views = entry_views(entries@);
    let mut at: usize = entries.len();
    assert(views.take(at as int) =~= views);
    assert(inserted(views, entry@) + views.skip(at as int) =~= inserted(views, entry@));
    while at > 0 && text::comes_before(entry.id.as_str(), entries[at - 1].id.as_str())
        invariant
            *entries == *old(entries),
            views == entry_views(entries@),
            at <= entries@.len(),
            inserted(views.take(at as int), entry@) + views.skip(at as int) == inserted(
                views,
                entry@,
            ),
        ensures
            at == 0 || !text::precedes(entry.id@, views[at - 1].id),
        decreases at,
    {
        proof {
            let part = views.take(at as int);
            assert(part.drop_last() =~= views.take(at - 1));
            assert(part.last() == entries@[at - 1]@);
            assert(inserted(part, entry@) == inserted(part.drop_last(), entry@).push(part.last()));
            assert(inserted(part.drop_last(), entry@).push(part.last()) + views.skip(at as int)
                =~= inserted(part.drop_last(), entry@) + views.skip(at - 1));
        }
        at -= 1;
    }
    let ghost part = views.take(at as int);
    proof {
        if at > 0 {
            assert(part.last() == views[at - 1]);
        }
        assert(inserted(part, entry@) =~= part.push(entry@));
    }
    entries.insert(at, entry);
    assert(entry_views(entries@) =~= part.push(entry@) + views.skip(at as int));
}

fn collect_entries(items: &Vec<TomlItem>) -> (entries: Vec<WorkspaceConfigEntry>)
    requires
        entries_fault(items@, 0) is None,
    ensures
        entry_views(entries@) == declared_entries(items@),
{
    let mut entries: Vec<WorkspaceConfigEntry> = Vec::new();
    assert(entry_views(entries@) =~= Seq::<EntryView>::empty());
    assert(items@.take(0) =~= Seq::<TomlItem>::empty());
    for k in 0..items.len()
        invariant
            entries_fault(items@, k as int) is None,
            entry_views(entries@) == declared_entries(items@.take(k as int)),
    {
        assert(items@.take(k + 1).drop_last() =~= items@.take(k as int));
        assert(items@.take(k + 1).last() == items@[k as int]);
        match &items[k].value {
            TomlNode::Table(fields) => {
                proof {
                    lemma_root_is_text(fields@, 0);
                }
                if let Some(TomlNode::Text(root)) = find_item(fields, "root") {
                    let entry: WorkspaceConfigEntry = read_entry(
                        items[k].key.as_str(),
                        fields,
                        root,
                    );
                    assert(entry@ =~= declared_entry(items@[k as int]));
                    insert_entry(&mut entries, entry);
                }
            },
            TomlNode::Array(values) => {
                if let TomlNode::Text(root) = &values[0] {
                    let entry: WorkspaceConfigEntry = read_listed(
                        items[k].key.as_str(),
                        values,
                        root,
                    );
                    assert(entry@ =~= declared_entry(items@[k as int]));
                    insert_entry(&mut entries, entry);
                }
            },
            _ => {},
        }
    }
    assert(items@.take(items@.len() as int) =~= items@);
    entries
}

proof fn lemma_root_is_text(fields: Seq<TomlItem>, k: int)
    requires
        fields_fault(fields, k) is None,
    ensures
        lookup(fields, "root"@, k) matches Some(node) ==> node is Text,
    decreases fields.len() - k,
{
    if 0 <= k < fields.len() && fields[k].key@ != "root"@ {
        lemma_root_is_text(fields, k + 1);
    }
}

proof fn lemma_top_kinds(items: Seq<TomlItem>, k: int)
    requires
        tops_fault(items, k) is None,
    ensures
        lookup(items, "version"@, k) matches Some(node) ==> node is Integer && node->Integer_0 >= 0,
        lookup(items, "workspaces"@, k) matches Some(node) ==> node is Table && entries_fault(
            node->Table_0@,
            0,
        ) is None,
    decreases items.len() - k,
{
    if 0 <= k < items.len() {
        lemma_top_kinds(items, k + 1);
        assert("version"@ != "workspaces"@) by {
            reveal_strlit("version");
            reveal_strlit("workspaces");
            assert("version"@.len() == 7);
            assert("workspaces"@.len() == 10);
        }
    }
}

/// The id that two neighbours from index `k` on share.
pub open spec fn first_repeat(entries: Seq<EntryView>, k: int) -> Option<Seq<char>>
    decreases entries.len() - k,
{
    if k < 1 || k >= entries.len() {
        None
    } else if entries[k - 1].id == entries[k].id {
        Some(entries[k].id)
    } else {
        first_repeat(entries, k + 1)
    }
}

/// What is wrong with a document: a fault of its schema, or an id that is
/// declared twice.
pub open spec fn document_fault(items: Seq<TomlItem>) -> Option<Seq<char>> {
    match schema_fault(items) {
        Some(fault) => Some(fault),
        None => match first_repeat(declared_workspaces(items), 1) {
            Some(id) => Some("duplicate key `"@ + id + "`"@),
            None => None,
        },
    }
}

/// Reads a configuration from a document. Nothing unknown is passed over,
/// and every capability is off by default.
pub fn read_config(items: &Vec<TomlItem>) -> (result: Result<WorkspaceConfigFile, String>)
    ensures
        match result {
            Ok(config) => document_fault(items@) is None && config.version == declared_version(
                items@,
            ) && entry_views(config.workspaces@) == declared_workspaces(items@),
            Err(e) => document_fault(items@) == Some(e@),
        },
{
    if let Some(fault) = check_tops(items) {
        return Err(fault);
    }
    proof {
        lemma_top_kinds(items@, 0);
    }
    let version: u64 = match find_item(items, "version") {
        Some(TomlNode::Integer(n)) => *n as u64,
        _ => {
            return Err(String::from_str("missing field `version`"));
        },
    };
    let workspaces: Vec<WorkspaceConfigEntry> = match find_item(items, "workspaces") {
        Some(TomlNode::Table(entries)) => collect_entries(entries),
        _ => {
            return Err(String::from_str("missing field `workspaces`"));
        },
    };
    let ghost views = entry_views(workspaces@);
    let mut k: usize = 1;
    while k < workspaces.len()
        invariant
            1 <= k,
            views == entry_views(workspaces@),
            views == declared_workspaces(items@),
            schema_fault(items@) is None,
            first_repeat(views, k as int) == first_repeat(views, 1),
        decreases workspaces.len() - k,
    {
        assert(views[k - 1] == workspaces@[k - 1]@);
        assert(views[k as int] == workspaces@[k as int]@);
        if text::same_text(workspaces[k - 1].id.as_str(), workspaces[k].id.as_str()) {
            return Err(
                String::from_str("duplicate key `").concat(workspaces[k].id.as_str()).concat("`"),
            );
        }
        k += 1;
    }
    Ok(WorkspaceConfigFile { version, workspaces })
}

/// Whether ids come in strict order, which makes each of them unique.
pub open spec fn strictly_ordered(entries: Seq<EntryView>) -> bool {
    forall|i: int, j: int|
        0 <= i < j < entries.len() ==> text::precedes(
            (#[trigger] entries[i]).id,
            (#[trigger] entries[j]).id,
        )
}

spec fn weakly_ordered(entries: Seq<EntryView>) -> bool {
    forall|i: int, j: int|
        0 <= i < j < entries.len() ==> !text::precedes(
            (#[trigger] entries[j]).id,
            (#[trigger] entries[i]).id,
        )
}

proof fn lemma_not_after_transitive(a: Seq<char>, b: Seq<char>, c: Seq<char>)
    requires
        !text::precedes(b, a),
        !text::precedes(c, b),
    ensures
        !text::precedes(c, a),
{
    text::lemma_precedes_total(a, b);
    text::lemma_precedes_total(b, c);
    if text::precedes(c, a) {
        if a != b && b != c {
            text::lemma_precedes_transitive(a, b, c);
            text::lemma_precedes_total(a, c);
        }
    }
}

proof fn lemma_inserted_ordered(entries: Seq<EntryView>, entry: EntryView)
    requires
        weakly_ordered(entries),
    ensures
        weakly_ordered(inserted(entries, entry)),
        inserted(entries, entry).len() == entries.len() + 1,
        forall|i: int|
            0 <= i < entries.len() + 1 ==> (#[trigger] inserted(entries, entry)[i]) == entry
                || entries.contains(inserted(entries, entry)[i]),
    decreases entries.len(),
{
    let out = inserted(entries, entry);
    if entries.len() > 0 && text::precedes(entry.id, entries.last().id) {
        let head = entries.drop_last();
        lemma_inserted_ordered(head, entry);
        let inner = inserted(head, entry);
        assert forall|i: int| 0 <= i < out.len() implies (#[trigger] out[i]) == entry
            || entries.contains(out[i]) by {
            if i < inner.len() {
                assert(out[i] == inner[i]);
                if inner[i] != entry {
                    let k = choose|k: int| 0 <= k < head.len() && head[k] == inner[i];
                    assert(entries[k] == out[i]);
                }
            } else {
                assert(entries[entries.len() - 1] == out[i]);
            }
        }
        assert forall|i: int, j: int| 0 <= i < j < out.len() implies !text::precedes(
            (#[trigger] out[j]).id,
            (#[trigger] out[i]).id,
        ) by {
            if j < inner.len() {
                assert(out[i] == inner[i] && out[j] == inner[j]);
            } else {
                assert(out[j] == entries.last());
                assert(out[i] == inner[i]);
                if inner[i] == entry {
                    text::lemma_precedes_total(entry.id, entries.last().id);
                } else {
                    let k = choose|k: int| 0 <= k < head.len() && head[k] == inner[i];
                    assert(entries[k] == inner[i]);
                    assert(entries[entries.len() - 1] == entries.last());
                }
            }
        }
    } else {
        assert forall|i: int| 0 <= i < out.len() implies (#[trigger] out[i]) == entry
            || entries.contains(out[i]) by {
            if i < entries.len() {
                assert(entries[i] == out[i]);
            }
        }
        assert forall|i: int, j: int| 0 <= i < j < out.len() implies !text::precedes(
            (#[trigger] out[j]).id,
            (#[trigger] out[i]).id,
        ) by {
            if j == entries.len() {
                assert(out[i] == entries[i]);
                if i < entries.len() - 1 {
                    assert(!text::precedes(entries[entries.len() - 1].id, entries[i].id));
                    lemma_not_after_transitive(entries[i].id, entries.last().id, entry.id);
                }
            } else {
                assert(out[i] == entries[i] && out[j] == entries[j]);
            }
        }
    }
}

proof fn lemma_declared_ordered(items: Seq<TomlItem>)
    ensures
        weakly_ordered(declared_entries(items)),
    decreases items.len(),
{
    if items.len() > 0 {
        lemma_declared_ordered(items.drop_last());
        lemma_inserted_ordered(
            declared_entries(items.drop_last()),
            declared_entry(items.last()),
        );
    }
}

proof fn lemma_no_repeat(entries: Seq<EntryView>, k: int, i: int)
    requires
        1 <= k <= i < entries.len(),
        first_repeat(entries, k) is None,
    ensures
        entries[i - 1].id != entries[i].id,
    decreases i - k,
{
    if k < i {
        lemma_no_repeat(entries, k + 1, i);
    }
}

/// The workspaces of an accepted document come in strict order of their ids,
/// whatever the order of declaration; so no id is declared twice.
pub proof fn law_declared_ids_are_ordered(items: Seq<TomlItem>)
    requires
        document_fault(items) is None,
    ensures
        strictly_ordered(declared_workspaces(items)),
{
    let entries = declared_workspaces(items);
    lemma_declared_ordered(lookup(items, "workspaces"@, 0).unwrap()->Table_0@);
    assert forall|i: int, j: int| 0 <= i < j < entries.len() implies text::precedes(
        (#[trigger] entries[i]).id,
        (#[trigger] entries[j]).id,
    ) by {
        lemma_no_repeat(entries, 1, i + 1);
        text::lemma_precedes_total(entries[i].id, entries[i + 1].id);
        assert(!text::precedes(entries[i + 1].id, entries[i].id));
        assert(text::precedes(entries[i].id, entries[i + 1].id));
        if i + 1 < j {
            assert(!text::precedes(entries[j].id, entries[i + 1].id));
            text::lemma_precedes_total(entries[i + 1].id, entries[j].id);
            if entries[i + 1].id != entries[j].id {
                text::lemma_precedes_transitive(entries[i].id, entries[i + 1].id, entries[j].id);
            }
        }
    }
}

// ---------------------------------------------------------------------------
// Validation
// ---------------------------------------------------------------------------

/// What the filesystem says of a declared root.
#[derive(Debug)]
pub struct RootFacts {
    /// Whether it exists.
    pub exists: bool,
    /// Whether it is a directory.
    pub directory: bool,
    /// Its canonical path, or why there is none.
    pub canonical: Result<FullPath, String>,
    /// A number that stands for the directory itself: two paths have the same
    /// number exactly if they are the same directory.
    pub identity: Result<u64, String>,
    /// The numbers of the directories above it, nearest first.
    pub ancestors: Vec<Result<u64, String>>,
}

/// `first`, or else `second`.
pub open spec fn either(first: Option<Seq<char>>, second: Option<Seq<char>>) -> Option<Seq<char>> {
    match first {
        Some(fault) => Some(fault),
        None => second,
    }
}

/// The first declared id from index `k` on that is not one.
pub open spec fn ids_fault(entries: Seq<EntryView>, k: int) -> Option<Seq<char>>
    decreases entries.len() - k,
{
    if k < 0 || k >= entries.len() {
        None
    } else if !workspace_id::is_id(entries[k].id) {
        Some(
            "invalid workspace id '"@ + entries[k].id + "': "@ + workspace_id::id_fault(
                entries[k].id,
            ),
        )
    } else {
        ids_fault(entries, k + 1)
    }
}

/// The first relative root from index `k` on.
pub open spec fn relative_fault(entries: Seq<EntryView>, absolute: Seq<bool>, k: int) -> Option<
    Seq<char>,
>
    decreases entries.len() - k,
{
    if k < 0 || k >= entries.len() {
        None
    } else if !absolute[k] {
        Some(
            "Workspace '"@ + entries[k].id + "': root '"@ + entries[k].root
                + "' is a relative path. Registry roots must be absolute so the policy cannot change with the server's working directory."@,
        )
    } else {
        relative_fault(entries, absolute, k + 1)
    }
}

/// What is wrong with the version, the number of workspaces or the ids of a
/// configuration.
pub open spec fn outline_fault(version: u64, entries: Seq<EntryView>) -> Option<Seq<char>> {
    if version != SUPPORTED_CONFIG_VERSION {
        Some(
            "Unsupported workspace config version: "@ + text::decimal(version as nat)
                + " (supported: 1)."@,
        )
    } else if entries.len() == 0 {
        Some(
            "Workspace config must declare at least one workspace under [workspaces.<id>]."@,
        )
    } else if entries.len() > MAX_REGISTRY_WORKSPACES {
        Some(
            "Workspace config declares "@ + text::decimal(entries.len())
                + " workspaces, but a registry may contain at most 64. list_workspaces is the authoritative discovery mechanism and is never truncated, so registry size is bounded at startup instead."@,
        )
    } else {
        ids_fault(entries, 0)
    }
}

/// What is wrong with a configuration before the disk is looked at.
pub open spec fn declared_fault(
    version: u64,
    entries: Seq<EntryView>,
    absolute: Seq<bool>,
) -> Option<Seq<char>> {
    either(outline_fault(version, entries), relative_fault(entries, absolute, 0))
}

/// A check of one declared root.
#[derive(Clone, Copy)]
pub enum RootCheck {
    /// It exists and is a directory.
    Place,
    /// It has a canonical path.
    Canonical,
    /// Its identity is known.
    Identity,
    /// A shell is allowed only where programs are.
    Shell,
}

/// The report of a directory whose identity is not known.
pub open spec fn unknown_identity(path: PathView, separator: u8, reason: Seq<char>) -> Seq<char> {
    "Failed to inspect filesystem identity of '"@ + text::decoded_text(
        workspace::path_bytes(path, separator),
    ) + "' while validating workspace roots.: "@ + reason
}

/// What one check says of a declared root.
pub open spec fn root_fault(
    check: RootCheck,
    entry: EntryView,
    facts: RootFacts,
    separator: u8,
) -> Option<Seq<char>> {
    match check {
        RootCheck::Place => if !facts.exists {
            Some(
                "Workspace '"@ + entry.id + "': root '"@ + entry.root + "' does not exist."@,
            )
        } else if !facts.directory {
            Some(
                "Workspace '"@ + entry.id + "': root '"@ + entry.root + "' is not a directory."@,
            )
        } else {
            None
        },
        RootCheck::Canonical => match facts.canonical {
            Ok(_) => None,
            Err(reason) => Some(
                "Workspace '"@ + entry.id
                    + "': invalid root: Failed to resolve workspace root '"@ + entry.root + "': "@
                    + reason@,
            ),
        },
        RootCheck::Identity => match facts.identity {
            Ok(_) => None,
            Err(reason) => Some(
                unknown_identity(facts.canonical->Ok_0@, separator, reason@),
            ),
        },
        RootCheck::Shell => if entry.allow_shell && !entry.execute {
            Some(
                "Workspace '"@ + entry.id
                    + "': allow_shell = true requires exec = true. Shell execution is a superset of program execution."@,
            )
        } else {
            None
        },
    }
}

/// The first root from index `k` on that fails a check.
pub open spec fn roots_fault(
    check: RootCheck,
    entries: Seq<EntryView>,
    facts: Seq<RootFacts>,
    separator: u8,
    k: int,
) -> Option<Seq<char>>
    decreases entries.len() - k,
{
    if k < 0 || k >= entries.len() {
        None
    } else {
        either(
            root_fault(check, entries[k], facts[k], separator),
            roots_fault(check, entries, facts, separator, k + 1),
        )
    }
}

/// Whether a directory is among the ancestors of another.
pub enum Within {
    /// It is not.
    No,
    /// It is.
    Yes,
    /// The ancestor with the given index is not known.
    Unknown(usize),
}

/// Looks for `identity` among ancestors, from index `k` on.
pub open spec fn within(identity: u64, ancestors: Seq<Result<u64, String>>, k: int) -> Within
    decreases ancestors.len() - k,
{
    if k < 0 || k >= ancestors.len() {
        Within::No
    } else {
        match ancestors[k] {
            Err(_) => Within::Unknown(k as usize),
            Ok(found) => if found == identity {
                Within::Yes
            } else {
                within(identity, ancestors, k + 1)
            },
        }
    }
}

/// What is wrong where the root of `inner` lies inside that of `outer`.
pub open spec fn nesting_fault(
    outer: EntryView,
    outer_facts: RootFacts,
    inner: EntryView,
    inner_facts: RootFacts,
    separator: u8,
) -> Option<Seq<char>> {
    let outer_root = outer_facts.canonical->Ok_0@;
    let inner_root = inner_facts.canonical->Ok_0@;
    match within(outer_facts.identity->Ok_0, inner_facts.ancestors@, 0) {
        Within::No => None,
        Within::Yes => Some(
            "Workspace '"@ + inner.id + "' root '"@ + text::decoded_text(
                workspace::path_bytes(inner_root, separator),
            ) + "' is nested inside workspace '"@ + outer.id + "' root '"@ + text::decoded_text(
                workspace::path_bytes(outer_root, separator),
            )
                + "'. Nested workspace roots are forbidden: a broader writable workspace would bypass a narrower read-only one."@,
        ),
        Within::Unknown(k) => Some(
            unknown_identity(
                workspace::ancestor(inner_root, k as int),
                separator,
                inner_facts.ancestors@[k as int]->Err_0@,
            ),
        ),
    }
}

/// What is wrong where two roots are the same directory.
pub open spec fn sameness_fault(
    a: EntryView,
    a_facts: RootFacts,
    b: EntryView,
    b_facts: RootFacts,
    separator: u8,
) -> Option<Seq<char>> {
    if a_facts.identity->Ok_0 == b_facts.identity->Ok_0 {
        Some(
            "Workspaces '"@ + a.id + "' and '"@ + b.id + "' resolve to the same directory ('"@
                + text::decoded_text(
                workspace::path_bytes(a_facts.canonical->Ok_0@, separator),
            ) + "'). Every workspace must have a distinct root."@,
        )
    } else {
        None
    }
}

/// The first pair of roots from `(i, j)` on that are the same directory, or
/// of which one lies inside the other.
pub open spec fn pairs_fault(
    nesting: bool,
    entries: Seq<EntryView>,
    facts: Seq<RootFacts>,
    separator: u8,
    i: int,
    j: int,
) -> Option<Seq<char>>
    decreases entries.len() - i, entries.len() - j,
{
    if i < 0 || i >= entries.len() {
        None
    } else if j >= entries.len() {
        pairs_fault(nesting, entries, facts, separator, i + 1, i + 2)
    } else {
        let here = if nesting {
            either(
                nesting_fault(entries[i], facts[i], entries[j], facts[j], separator),
                nesting_fault(entries[j], facts[j], entries[i], facts[i], separator),
            )
        } else {
            sameness_fault(entries[i], facts[i], entries[j], facts[j], separator)
        };
        either(here, pairs_fault(nesting, entries, facts, separator, i, j + 1))
    }
}

/// What is wrong with declared roots, in the order in which it is looked for.
pub open spec fn build_fault(
    entries: Seq<EntryView>,
    facts: Seq<RootFacts>,
    separator: u8,
) -> Option<Seq<char>> {
    either(
        roots_fault(RootCheck::Place, entries, facts, separator, 0),
        either(
            roots_fault(RootCheck::Canonical, entries, facts, separator, 0),
            either(
                roots_fault(RootCheck::Identity, entries, facts, separator, 0),
                either(
                    pairs_fault(false, entries, facts, separator, 0, 1),
                    either(
                        pairs_fault(true, entries, facts, separator, 0, 1),
                        roots_fault(RootCheck::Shell, entries, facts, separator, 0),
                    ),
                ),
            ),
        ),
    )
}

/// Checks the version, the number of workspaces and the ids of a
/// configuration.
fn check_outline(config: &WorkspaceConfigFile) -> (result: Result<(), SetupError>)
    ensures
        match result {
            Ok(_) => outline_fault(config.version, entry_views(config.workspaces@)) is None,
            Err(e) => outline_fault(config.version, entry_views(config.workspaces@)) == Some(e.0@),
        },
{
    let ghost views = entry_views(config.workspaces@);
    if config.version != SUPPORTED_CONFIG_VERSION {
        return Err(
            SetupError(
                String::from_str("Unsupported workspace config version: ").concat(
                    text::decimal_of(config.version).as_str(),
                ).concat(" (supported: 1)."),
            ),
        );
    }
    let count: usize = config.workspaces.len();
    if count == 0 {
        return Err(
            SetupError::msg(
                "Workspace config must declare at least one workspace under [workspaces.<id>].",
            ),
        );
    }
    if count > MAX_REGISTRY_WORKSPACES {
        return Err(
            SetupError(
                String::from_str("Workspace config declares ").concat(
                    text::decimal_of(count as u64).as_str(),
                ).concat(
                    " workspaces, but a registry may contain at most 64. list_workspaces is the authoritative discovery mechanism and is never truncated, so registry size is bounded at startup instead.",
                ),
            ),
        );
    }
    for k in 0..count
        invariant
            count == config.workspaces@.len(),
            views == entry_views(config.workspaces@),
            0 < count <= MAX_REGISTRY_WORKSPACES,
            config.version == SUPPORTED_CONFIG_VERSION,
            ids_fault(views, k as int) == ids_fault(views, 0),
    {
        assert(views[k as int] == config.workspaces@[k as int]@);
        if let Err(e) = WorkspaceId::parse(config.workspaces[k].id.as_str()) {
            return Err(SetupError(e));
        }
    }
    Ok(())
}

/// Checks a configuration before the disk is looked at.
pub fn check_declared(config: &WorkspaceConfigFile, absolute: &Vec<bool>) -> (result: Result<
    (),
    SetupError,
>)
    requires
        absolute@.len() == config.workspaces@.len(),
    ensures
        match result {
            Ok(_) => declared_fault(config.version, entry_views(config.workspaces@), absolute@)
                is None,
            Err(e) => declared_fault(config.version, entry_views(config.workspaces@), absolute@)
                == Some(e.0@),
        },
{
    let ghost views = entry_views(config.workspaces@);
    if let Err(e) = check_outline(config) {
        return Err(e);
    }
    let count: usize = config.workspaces.len();
    for k in 0..count
        invariant
            count == config.workspaces@.len() == absolute@.len(),
            views == entry_views(config.workspaces@),
            outline_fault(config.version, views) is None,
            relative_fault(views, absolute@, k as int) == relative_fault(views, absolute@, 0),
    {
        assert(views[k as int] == config.workspaces@[k as int]@);
        if !absolute[k] {
            return Err(
                SetupError(
                    String::from_str("Workspace '").concat(
                        config.workspaces[k].id.as_str(),
                    ).concat("': root '").concat(config.workspaces[k].root.as_str()).concat(
                        "' is a relative path. Registry roots must be absolute so the policy cannot change with the server's working directory.",
                    ),
                ),
            );
        }
    }
    Ok(())
}

fn report_unknown(path: &FullPath, separator: u8, reason: &str) -> (report: String)
    ensures
        report@ == unknown_identity(path@, separator, reason@),
{
    String::from_str("Failed to inspect filesystem identity of '").concat(
        workspace::full_path_text(path, separator).as_str(),
    ).concat("' while validating workspace roots.: ").concat(reason)
}

fn check_root(
    check: RootCheck,
    entry: &WorkspaceConfigEntry,
    facts: &RootFacts,
    separator: u8,
) -> (fault: Option<String>)
    requires
        check is Identity ==> facts.canonical is Ok,
    ensures
        match fault {
            Some(s) => root_fault(check, entry@, *facts, separator) == Some(s@),
            None => root_fault(check, entry@, *facts, separator) is None,
        },
{
    match check {
        RootCheck::Place => if !facts.exists {
            Some(
                String::from_str("Workspace '").concat(entry.id.as_str()).concat(
                    "': root '",
                ).concat(entry.root.as_str()).concat("' does not exist."),
            )
        } else if !facts.directory {
            Some(
                String::from_str("Workspace '").concat(entry.id.as_str()).concat(
                    "': root '",
                ).concat(entry.root.as_str()).concat("' is not a directory."),
            )
        } else {
            None
        },
        RootCheck::Canonical => match &facts.canonical {
            Ok(_) => None,
            Err(reason) => Some(
                String::from_str("Workspace '").concat(entry.id.as_str()).concat(
                    "': invalid root: Failed to resolve workspace root '",
                ).concat(entry.root.as_str()).concat("': ").concat(reason.as_str()),
            ),
        },
        RootCheck::Identity => match (&facts.identity, &facts.canonical) {
            (Err(reason), Ok(path)) => Some(report_unknown(path, separator, reason.as_str())),
            _ => None,
        },
        RootCheck::Shell => if entry.allow_shell && !entry.execute {
            Some(
                String::from_str("Workspace '").concat(entry.id.as_str()).concat(
                    "': allow_shell = true requires exec = true. Shell execution is a superset of program execution.",
                ),
            )
        } else {
            None
        },
    }
}

fn check_roots(
    check: RootCheck,
    entries: &Vec<WorkspaceConfigEntry>,
    facts: &Vec<RootFacts>,
    separator: u8,
) -> (fault: Option<String>)
    requires
        entries@.len() == facts@.len(),
        check is Identity ==> roots_fault(
            RootCheck::Canonical,
            entry_views(entries@),
            facts@,
            separator,
            0,
        ) is None,
    ensures
        match fault {
            Some(s) => roots_fault(check, entry_views(entries@), facts@, separator, 0) == Some(s@),
            None => roots_fault(check, entry_views(entries@), facts@, separator, 0) is None,
        },
{
    let ghost views = entry_views(entries@);
    for k in 0..entries.len()
        invariant
            entries@.len() == facts@.len(),
            views == entry_views(entries@),
            check is Identity ==> roots_fault(RootCheck::Canonical, views, facts@, separator, 0)
                is None,
            roots_fault(check, views, facts@, separator, k as int) == roots_fault(
                check,
                views,
                facts@,
                separator,
                0,
            ),
    {
        assert(views[k as int] == entries@[k as int]@);
        proof {
            if check is Identity {
                lemma_root_passes(RootCheck::Canonical, views, facts@, separator, 0, k as int);
            }
        }
        if let Some(fault) = check_root(check, &entries[k], &facts[k], separator) {
            return Some(fault);
        }
    }
    None
}

proof fn lemma_root_passes(
    check: RootCheck,
    entries: Seq<EntryView>,
    facts: Seq<RootFacts>,
    separator: u8,
    k: int,
    i: int,
)
    requires
        0 <= k <= i < entries.len(),
        roots_fault(check, entries, facts, separator, k) is None,
    ensures
        root_fault(check, entries[i], facts[i], separator) is None,
    decreases i - k,
{
    if k < i {
        lemma_root_passes(check, entries, facts, separator, k + 1, i);
    }
}

fn find_within(identity: u64, ancestors: &Vec<Result<u64, String>>) -> (found: Within)
    ensures
        found == within(identity, ancestors@, 0),
        found matches Within::Unknown(k) ==> k < ancestors@.len() && ancestors@[k as int] is Err,
{
    let mut k: usize = 0;
    while k < ancestors.len()
        invariant
            k <= ancestors@.len(),
            within(identity, ancestors@, k as int) == within(identity, ancestors@, 0),
        decreases ancestors.len() - k,
    {
        match &ancestors[k] {
            Err(_) => {
                return Within::Unknown(k);
            },
            Ok(other) => {
                if *other == identity {
                    return Within::Yes;
                }
            },
        }
        k += 1;
    }
    Within::No
}

fn check_nesting(
    outer: &WorkspaceConfigEntry,
    outer_facts: &RootFacts,
    inner: &WorkspaceConfigEntry,
    inner_facts: &RootFacts,
    separator: u8,
) -> (fault: Option<String>)
    requires
        outer_facts.canonical is Ok,
        inner_facts.canonical is Ok,
        outer_facts.identity is Ok,
    ensures
        match fault {
            Some(s) => nesting_fault(outer@, *outer_facts, inner@, *inner_facts, separator)
                == Some(s@),
            None => nesting_fault(outer@, *outer_facts, inner@, *inner_facts, separator) is None,
        },
{
    let (identity, outer_root, inner_root) = match (
        &outer_facts.identity,
        &outer_facts.canonical,
        &inner_facts.canonical,
    ) {
        (Ok(identity), Ok(outer_root), Ok(inner_root)) => (*identity, outer_root, inner_root),
        _ => {
            return None;
        },
    };
    match find_within(identity, &inner_facts.ancestors) {
        Within::No => None,
        Within::Yes => Some(
            String::from_str("Workspace '").concat(inner.id.as_str()).concat("' root '").concat(
                workspace::full_path_text(inner_root, separator).as_str(),
            ).concat("' is nested inside workspace '").concat(outer.id.as_str()).concat(
                "' root '",
            ).concat(workspace::full_path_text(outer_root, separator).as_str()).concat(
                "'. Nested workspace roots are forbidden: a broader writable workspace would bypass a narrower read-only one.",
            ),
        ),
        Within::Unknown(k) => {
            let above: FullPath = inner_root.above(k);
            match &inner_facts.ancestors[k] {
                Err(reason) => Some(report_unknown(&above, separator, reason.as_str())),
                Ok(_) => None,
            }
        },
    }
}

fn check_sameness(
    a: &WorkspaceConfigEntry,
    a_facts: &RootFacts,
    b: &WorkspaceConfigEntry,
    b_facts: &RootFacts,
    separator: u8,
) -> (fault: Option<String>)
    requires
        a_facts.canonical is Ok,
        a_facts.identity is Ok,
        b_facts.identity is Ok,
    ensures
        match fault {
            Some(s) => sameness_fault(a@, *a_facts, b@, *b_facts, separator) == Some(s@),
            None => sameness_fault(a@, *a_facts, b@, *b_facts, separator) is None,
        },
{
    match (&a_facts.identity, &b_facts.identity, &a_facts.canonical) {
        (Ok(x), Ok(y), Ok(root)) => if *x == *y {
            Some(
                String::from_str("Workspaces '").concat(a.id.as_str()).concat("' and '").concat(
                    b.id.as_str(),
                ).concat("' resolve to the same directory ('").concat(
                    workspace::full_path_text(root, separator).as_str(),
                ).concat("'). Every workspace must have a distinct root."),
            )
        } else {
            None
        },
        _ => None,
    }
}

/// Whether the canonical paths and identities of all roots are known.
pub open spec fn roots_known(facts: Seq<RootFacts>) -> bool {
    forall|i: int|
        0 <= i < facts.len() ==> (#[trigger] facts[i]).canonical is Ok && facts[i].identity is Ok
}

fn check_pairs(
    nesting: bool,
    entries: &Vec<WorkspaceConfigEntry>,
    facts: &Vec<RootFacts>,
    separator: u8,
) -> (fault: Option<String>)
    requires
        entries@.len() == facts@.len() <= MAX_REGISTRY_WORKSPACES,
        roots_known(facts@),
    ensures
        match fault {
            Some(s) => pairs_fault(nesting, entry_views(entries@), facts@, separator, 0, 1) == Some(
                s@,
            ),
            None => pairs_fault(nesting, entry_views(entries@), facts@, separator, 0, 1) is None,
        },
{
    let ghost views = entry_views(entries@);
    let ghost whole = pairs_fault(nesting, views, facts@, separator, 0, 1);
    let mut i: usize = 0;
    while i < entries.len()
        invariant
            i <= entries@.len() == facts@.len() <= MAX_REGISTRY_WORKSPACES,
            roots_known(facts@),
            views == entry_views(entries@),
            whole == pairs_fault(nesting, views, facts@, separator, 0, 1),
            pairs_fault(nesting, views, facts@, separator, i as int, i + 1) == whole,
        decreases entries.len() - i,
    {
        let mut j: usize = i + 1;
        while j < entries.len()
            invariant
                i < j <= entries@.len() == facts@.len() <= MAX_REGISTRY_WORKSPACES,
                roots_known(facts@),
                views == entry_views(entries@),
                whole == pairs_fault(nesting, views, facts@, separator, 0, 1),
                pairs_fault(nesting, views, facts@, separator, i as int, j as int) == whole,
            decreases entries.len() - j,
        {
            assert(views[i as int] == entries@[i as int]@);
            assert(views[j as int] == entries@[j as int]@);
            if nesting {
                if let Some(fault) = check_nesting(
                    &entries[i],
                    &facts[i],
                    &entries[j],
                    &facts[j],
                    separator,
                ) {
                    return Some(fault);
                }
                if let Some(fault) = check_nesting(
                    &entries[j],
                    &facts[j],
                    &entries[i],
                    &facts[i],
                    separator,
                ) {
                    return Some(fault);
                }
            } else {
                if let Some(fault) = check_sameness(
                    &entries[i],
                    &facts[i],
                    &entries[j],
                    &facts[j],
                    separator,
                ) {
                    return Some(fault);
                }
            }
            j += 1;
        }
        i += 1;
    }
    None
}

// ---------------------------------------------------------------------------
// The registry
// ---------------------------------------------------------------------------

/// An immutable registry of validated workspace contexts, in the order of
/// their ids.
#[derive(Debug)]
pub struct WorkspaceRegistry {
    workspaces: Vec<Arc<WorkspaceContext>>,
}

/// The permissions that a declaration grants. Reading is always allowed.
pub open spec fn granted(entry: EntryView) -> Permissions {
    Permissions {
        read: true,
        write: entry.write,
        execute: entry.execute,
        shell: entry.allow_shell,
    }
}

/// Whether a context is what a declaration and its root make.
pub open spec fn context_of(
    context: WorkspaceContext,
    entry: EntryView,
    facts: RootFacts,
    separator: u8,
) -> bool {
    &&& context.id_view() == Some(entry.id)
    &&& facts.canonical matches Ok(path) && context.resolver_view().root_view() == path@
    &&& context.resolver_view().separator_view() == separator
    &&& context.permissions_view() == granted(entry)
}

/// Shares a context with `Arc::clone`, which gives another handle to the same
/// value.
#[verifier::external_body]
fn share(context: &Arc<WorkspaceContext>) -> (shared: Arc<WorkspaceContext>)
    ensures
        shared == *context,
{
    Arc::clone(context)
}

impl WorkspaceRegistry {
    /// The registered contexts, in the order of their ids.
    pub closed spec fn contexts(self) -> Seq<WorkspaceContext> {
        self.workspaces@.map_values(|context: Arc<WorkspaceContext>| *context)
    }

    /// The registry's invariant: between one and the largest allowed number
    /// of contexts, each with a valid id, in strict order of the ids, each
    /// readable and with a shell only where programs are allowed.
    pub open spec fn wf(self) -> bool {
        let contexts = self.contexts();
        &&& 1 <= contexts.len() <= MAX_REGISTRY_WORKSPACES
        &&& forall|i: int|
            0 <= i < contexts.len() ==> {
                &&& (#[trigger] contexts[i]).id_view() is Some
                &&& workspace_id::is_id(contexts[i].id_view().unwrap())
                &&& contexts[i].permissions_view().coherent()
            }
        &&& forall|i: int, j: int|
            0 <= i < j < contexts.len() ==> text::precedes(
                (#[trigger] contexts[i]).id_view().unwrap(),
                (#[trigger] contexts[j]).id_view().unwrap(),
            )
    }

    /// Builds the registry from a configuration and what the filesystem says
    /// of each declared root. Everything is validated before anything is
    /// handed out.
    pub fn build(config: &WorkspaceConfigFile, facts: &Vec<RootFacts>, separator: u8) -> (result:
        Result<WorkspaceRegistry, SetupError>)
        requires
            facts@.len() == config.workspaces@.len(),
            strictly_ordered(entry_views(config.workspaces@)),
        ensures
            match result {
                Ok(registry) => {
                    let entries = entry_views(config.workspaces@);
                    &&& outline_fault(config.version, entries) is None
                    &&& build_fault(entries, facts@, separator) is None
                    &&& registry.wf()
                    &&& registry.contexts().len() == entries.len()
                    &&& forall|i: int|
                        0 <= i < entries.len() ==> context_of(
                            #[trigger] registry.contexts()[i],
                            entries[i],
                            facts@[i],
                            separator,
                        )
                },
                Err(e) => {
                    let entries = entry_views(config.workspaces@);
                    either(
                        outline_fault(config.version, entries),
                        build_fault(entries, facts@, separator),
                    ) == Some(e.0@)
                },
            },
    {
        if let Err(e) = check_outline(config) {
            return Err(e);
        }
        let entries: &Vec<WorkspaceConfigEntry> = &config.workspaces;
        let ghost views = entry_views(entries@);
        if let Some(fault) = check_roots(RootCheck::Place, entries, facts, separator) {
            return Err(SetupError(fault));
        }
        if let Some(fault) = check_roots(RootCheck::Canonical, entries, facts, separator) {
            return Err(SetupError(fault));
        }
        if let Some(fault) = check_roots(RootCheck::Identity, entries, facts, separator) {
            return Err(SetupError(fault));
        }
        assert forall|i: int| 0 <= i < facts@.len() implies (#[trigger] facts@[i]).canonical is Ok
            && facts@[i].identity is Ok by {
            lemma_root_passes(RootCheck::Canonical, views, facts@, separator, 0, i);
            lemma_root_passes(RootCheck::Identity, views, facts@, separator, 0, i);
        }
        if let Some(fault) = check_pairs(false, entries, facts, separator) {
            return Err(SetupError(fault));
        }
        if let Some(fault) = check_pairs(true, entries, facts, separator) {
            return Err(SetupError(fault));
        }
        if let Some(fault) = check_roots(RootCheck::Shell, entries, facts, separator) {
            return Err(SetupError(fault));
        }
        let mut workspaces: Vec<Arc<WorkspaceContext>> = Vec::new();
        for k in 0..entries.len()
            invariant
                entries@.len() == facts@.len() <= MAX_REGISTRY_WORKSPACES,
                views == entry_views(entries@),
                ids_fault(views, 0) is None,
                roots_known(facts@),
                build_fault(views, facts@, separator) is None,
                *entries == config.workspaces,
                workspaces@.len() == k,
                forall|i: int|
                    0 <= i < k ==> context_of(
                        *(#[trigger] workspaces@[i]),
                        views[i],
                        facts@[i],
                        separator,
                    ),
        {
            let entry: &WorkspaceConfigEntry = &entries[k];
            assert(views[k as int] == entry@);
            proof {
                lemma_id_passes(views, 0, k as int);
            }
            assert(facts@[k as int].canonical is Ok);
            match (WorkspaceId::parse(entry.id.as_str()), &facts[k].canonical) {
                (Ok(id), Ok(path)) => {
                    match Workspace::open(entry.root.as_str(), Ok(path.duplicate()), separator) {
                        Ok(resolver) => {
                            let permissions = Permissions {
                                read: true,
                                write: entry.write,
                                execute: entry.execute,
                                shell: entry.allow_shell,
                            };
                            let context = WorkspaceContext::new(Some(id), resolver, permissions);
                            workspaces.push(Arc::new(context));
                        },
                        Err(_) => {},
                    }
                },
                _ => {},
            }
        }
        let registry = WorkspaceRegistry { workspaces };
        proof {
            let contexts = registry.contexts();
            assert forall|i: int| 0 <= i < contexts.len() implies {
                &&& (#[trigger] contexts[i]).id_view() is Some
                &&& workspace_id::is_id(contexts[i].id_view().unwrap())
                &&& contexts[i].permissions_view().coherent()
            } by {
                assert(context_of(*workspaces@[i], views[i], facts@[i], separator));
                lemma_id_passes(views, 0, i);
                lemma_root_passes(RootCheck::Shell, views, facts@, separator, 0, i);
            }
            assert forall|i: int, j: int| 0 <= i < j < contexts.len() implies text::precedes(
                (#[trigger] contexts[i]).id_view().unwrap(),
                (#[trigger] contexts[j]).id_view().unwrap(),
            ) by {
                assert(context_of(*workspaces@[i], views[i], facts@[i], separator));
                assert(context_of(*workspaces@[j], views[j], facts@[j], separator));
                assert(text::precedes(views[i].id, views[j].id));
            }
            assert forall|i: int| 0 <= i < views.len() implies context_of(
                #[trigger] contexts[i],
                views[i],
                facts@[i],
                separator,
            ) by {
                assert(context_of(*workspaces@[i], views[i], facts@[i], separator));
            }
        }
        Ok(registry)
    }

    /// Looks a workspace up by its exact id: no case folding, no aliases, no
    /// fallback.
    pub fn get(&self, id: &WorkspaceId) -> (found: Option<Arc<WorkspaceContext>>)
        ensures
            match found {
                Some(context) => self.contexts().contains(*context) && context.id_view() == Some(
                    id@,
                ),
                None => forall|i: int|
                    0 <= i < self.contexts().len() ==> (#[trigger] self.contexts()[i]).id_view()
                        != Some(id@),
            },
    {
        for k in 0..self.workspaces.len()
            invariant
                forall|i: int| 0 <= i < k ==> (#[trigger] self.contexts()[i]).id_view() != Some(id@),
        {
            assert(self.contexts()[k as int] == *self.workspaces@[k as int]);
            if let Some(own) = self.workspaces[k].id() {
                if own.same(id) {
                    return Some(share(&self.workspaces[k]));
                }
            }
        }
        None
    }

    /// All contexts in the order of their ids.
    pub fn iter_sorted(&self) -> (contexts: Vec<&Arc<WorkspaceContext>>)
        ensures
            contexts@.len() == self.contexts().len(),
            forall|i: int| 0 <= i < contexts@.len() ==> **(#[trigger] contexts@[i]) == self.contexts()[i],
    {
        let mut contexts: Vec<&Arc<WorkspaceContext>> = Vec::new();
        for k in 0..self.workspaces.len()
            invariant
                contexts@.len() == k,
                forall|i: int| 0 <= i < k ==> **(#[trigger] contexts@[i]) == self.contexts()[i],
        {
            assert(self.contexts()[k as int] == *self.workspaces@[k as int]);
            contexts.push(&self.workspaces[k]);
        }
        contexts
    }
}

proof fn lemma_id_passes(entries: Seq<EntryView>, k: int, i: int)
    requires
        0 <= k <= i < entries.len(),
        ids_fault(entries, k) is None,
    ensures
        workspace_id::is_id(entries[i].id),
    decreases i - k,
{
    if k < i {
        lemma_id_passes(entries, k + 1, i);
    }
}

/// Whether `result` is what comes of a configuration text, given which of the
/// declared roots are absolute and what the filesystem says of them.
pub open spec fn comes_of(
    result: Result<WorkspaceRegistry, SetupError>,
    raw: Seq<char>,
    absolute: Seq<bool>,
    facts: Seq<RootFacts>,
    separator: u8,
) -> bool {
    match toml_document(raw) {
        Err(reason) => result matches Err(e) && e.0@ == "invalid workspace configuration: "@
            + reason,
        Ok(items) => match document_fault(items) {
            Some(fault) => result matches Err(e) && e.0@ == "invalid workspace configuration: "@
                + fault,
            None => {
                let entries = declared_workspaces(items);
                match either(
                    declared_fault(declared_version(items), entries, absolute),
                    build_fault(entries, facts, separator),
                ) {
                    Some(fault) => result matches Err(e) && e.0@ == fault,
                    None => {
                        &&& result matches Ok(registry)
                        &&& registry.wf()
                        &&& registry.contexts().len() == entries.len()
                        &&& forall|i: int|
                            0 <= i < entries.len() ==> context_of(
                                #[trigger] registry.contexts()[i],
                                entries[i],
                                facts[i],
                                separator,
                            )
                    },
                }
            },
        },
    }
}

/// The workspaces that a configuration text declares; none where it has a
/// fault.
pub open spec fn text_workspaces(raw: Seq<char>) -> Seq<EntryView> {
    match toml_document(raw) {
        Ok(items) => if document_fault(items) is None {
            declared_workspaces(items)
        } else {
            Seq::empty()
        },
        Err(_) => Seq::empty(),
    }
}

/// Whether `absolute` is what the platform says of the declared roots.
pub open spec fn judged(absolute: Seq<bool>, entries: Seq<EntryView>) -> bool {
    &&& absolute.len() == entries.len()
    &&& forall|i: int|
        0 <= i < entries.len() ==> workspace::told_absolute(
            entries[i].root,
            #[trigger] absolute[i],
        )
}

/// Whether `facts` are what `probe` may say of a root.
pub open spec fn told<F: Fn(&str) -> RootFacts>(
    probe: F,
    root: Seq<char>,
    facts: RootFacts,
) -> bool {
    exists|given: &str| given@ == root && #[trigger] call_ensures(probe, (given,), facts)
}

/// Whether `facts` are what `probe` says of the declared roots.
pub open spec fn answered<F: Fn(&str) -> RootFacts>(
    probe: F,
    entries: Seq<EntryView>,
    facts: Seq<RootFacts>,
) -> bool {
    &&& facts.len() == entries.len()
    &&& forall|i: int|
        0 <= i < entries.len() ==> told(probe, entries[i].root, #[trigger] facts[i])
}

/// Whether `result` comes of a configuration text with what the platform and
/// `probe` say of the declared roots; `probe` is asked only once everything
/// else about the declarations is in order.
pub open spec fn comes_of_probe<F: Fn(&str) -> RootFacts>(
    result: Result<WorkspaceRegistry, SetupError>,
    raw: Seq<char>,
    separator: u8,
    probe: F,
    absolute: Seq<bool>,
    facts: Seq<RootFacts>,
) -> bool {
    let entries = text_workspaces(raw);
    &&& comes_of(result, raw, absolute, facts, separator)
    &&& judged(absolute, entries)
    &&& declarations_pass(raw, absolute) ==> answered(probe, entries, facts)
}

/// Whether a configuration text is in order but for what is on disk.
pub open spec fn declarations_pass(raw: Seq<char>, absolute: Seq<bool>) -> bool {
    match toml_document(raw) {
        Err(_) => false,
        Ok(items) => document_fault(items) is None && declared_fault(
            declared_version(items),
            declared_workspaces(items),
            absolute,
        ) is None,
    }
}

fn judge_roots(entries: &Vec<WorkspaceConfigEntry>) -> (absolute: Vec<bool>)
    ensures
        judged(absolute@, entry_views(entries@)),
{
    let ghost views = entry_views(entries@);
    let mut absolute: Vec<bool> = Vec::new();
    for k in 0..entries.len()
        invariant
            views == entry_views(entries@),
            absolute@.len() == k,
            forall|i: int|
                0 <= i < k ==> workspace::told_absolute(views[i].root, #[trigger] absolute@[i]),
    {
        assert(views[k as int] == entries@[k as int]@);
        absolute.push(workspace::ask_absolute(entries[k].root.as_str()));
    }
    absolute
}

impl WorkspaceRegistry {
    /// Builds a registry from a document; `probe` tells what the filesystem
    /// says of a root, and is asked only once the declarations pass.
    fn from_document<F: Fn(&str) -> RootFacts>(
        items: &Vec<TomlItem>,
        separator: u8,
        probe: &F,
        Ghost(raw): Ghost<Seq<char>>,
    ) -> (result: Result<WorkspaceRegistry, SetupError>)
        requires
            toml_document(raw) == Ok::<Seq<TomlItem>, Seq<char>>(items@),
            forall|root: &str| call_requires(probe, (root,)),
        ensures
            exists|absolute: Seq<bool>, facts: Seq<RootFacts>| #[trigger]
                comes_of_probe(result, raw, separator, *probe, absolute, facts),
    {
        let config: WorkspaceConfigFile = match read_config(items) {
            Ok(config) => config,
            Err(reason) => {
                let result = Err(
                    SetupError(
                        String::from_str("invalid workspace configuration: ").concat(
                            reason.as_str(),
                        ),
                    ),
                );
                proof {
                    let none = Seq::<RootFacts>::empty();
                    assert(comes_of_probe(result, raw, separator, *probe, Seq::empty(), none));
                }
                return result;
            },
        };
        let ghost views = entry_views(config.workspaces@);
        proof {
            law_declared_ids_are_ordered(items@);
        }
        let absolute: Vec<bool> = judge_roots(&config.workspaces);
        if let Err(e) = check_declared(&config, &absolute) {
            let result = Err(e);
            proof {
                let none = Seq::<RootFacts>::empty();
                assert(comes_of_probe(result, raw, separator, *probe, absolute@, none));
            }
            return result;
        }
        let mut facts: Vec<RootFacts> = Vec::new();
        for k in 0..config.workspaces.len()
            invariant
                forall|root: &str| call_requires(probe, (root,)),
                facts@.len() == k,
                views == entry_views(config.workspaces@),
                forall|i: int|
                    0 <= i < k ==> told(*probe, views[i].root, #[trigger] facts@[i]),
        {
            let root: &str = config.workspaces[k].root.as_str();
            let found: RootFacts = probe(root);
            facts.push(found);
            proof {
                assert(views[k as int] == config.workspaces@[k as int]@);
                assert(call_ensures(*probe, (root,), found));
                assert(told(*probe, views[k as int].root, found));
            }
        }
        let result: Result<WorkspaceRegistry, SetupError> = Self::build(&config, &facts, separator);
        assert(comes_of_probe(result, raw, separator, *probe, absolute@, facts@));
        result
    }

    /// Reads and validates a registry configuration. `probe` tells what the
    /// filesystem says of a root.
    ///
    /// Whether a root is absolute is the platform's affair, and what a root is
    /// on disk is the filesystem's; the outcome is stated for whatever they
    /// say.
    pub fn from_toml_str<F: Fn(&str) -> RootFacts>(raw: &str, separator: u8, probe: &F) -> (result:
        Result<WorkspaceRegistry, SetupError>)
        requires
            forall|root: &str| call_requires(probe, (root,)),
        ensures
            exists|absolute: Seq<bool>, facts: Seq<RootFacts>| #[trigger]
                comes_of_probe(result, raw@, separator, *probe, absolute, facts),
    {
        match parse_toml(raw) {
            Ok(value) => {
                let items: Vec<TomlItem> = match into_node(value) {
                    TomlNode::Table(items) => items,
                    _ => Vec::new(),
                };
                Self::from_document(&items, separator, probe, Ghost(raw@))
            },
            Err(reason) => {
                let result = Err(
                    SetupError(
                        String::from_str("invalid workspace configuration: ").concat(
                            reason.as_str(),
                        ),
                    ),
                );
                proof {
                    let none = Seq::<RootFacts>::empty();
                    assert(comes_of_probe(result, raw@, separator, *probe, Seq::empty(), none));
                }
                result
            },
        }
    }

    /// Reads and validates the registry configuration in a file, given its
    /// content or why that could not be read. Every fault names the file.
    pub fn from_file<F: Fn(&str) -> RootFacts>(
        path: &str,
        content: Result<String, String>,
        separator: u8,
        probe: &F,
    ) -> (result: Result<WorkspaceRegistry, SetupError>)
        requires
            forall|root: &str| call_requires(probe, (root,)),
        ensures
            match content {
                Err(reason) => result matches Err(e) && e.0@ == "Failed to read workspace config '"@
                    + path@ + "': "@ + reason@,
                Ok(raw) => exists|
                    loaded: Result<WorkspaceRegistry, SetupError>,
                    absolute: Seq<bool>,
                    facts: Seq<RootFacts>,
                | #[trigger]
                    comes_of_probe(loaded, raw@, separator, *probe, absolute, facts) && match (
                        loaded,
                        result,
                    ) {
                        (Ok(built), Ok(registry)) => registry == built,
                        (Err(fault), Err(e)) => e.0@ == "in workspace config '"@ + path@ + "': "@
                            + fault.0@,
                        _ => false,
                    },
            },
    {
        match content {
            Err(reason) => Err(config_unreadable(path, reason.as_str())),
            Ok(raw) => match Self::from_toml_str(raw.as_str(), separator, probe) {
                Ok(registry) => Ok(registry),
                Err(fault) => Err(config_faulty(path, &fault)),
            },
        }
    }
}

/// The report of a configuration file that could not be read.
fn config_unreadable(path: &str, reason: &str) -> (error: SetupError)
    ensures
        error.0@ == "Failed to read workspace config '"@ + path@ + "': "@ + reason@,
{
    SetupError(
        String::from_str("Failed to read workspace config '").concat(path).concat("': ").concat(
            reason,
        ),
    )
}

/// The report of a fault in a configuration file.
fn config_faulty(path: &str, fault: &SetupError) -> (error: SetupError)
    ensures
        error.0@ == "in workspace config '"@ + path@ + "': "@ + fault.0@,
{
    SetupError(
        String::from_str("in workspace config '").concat(path).concat("': ").concat(
            fault.0.as_str(),
        ),
    )
}

// ---------------------------------------------------------------------------
// Laws
// ---------------------------------------------------------------------------

/// Whether facts report the identities that `identity` gives to directories:
/// those of the roots and of everything above them.
pub open spec fn faithful(facts: Seq<RootFacts>, identity: spec_fn(PathView) -> u64) -> bool {
    forall|i: int|
        0 <= i < facts.len() ==> {
            &&& (#[trigger] facts[i]).canonical is Ok
            &&& facts[i].identity == Ok::<u64, String>(identity(facts[i].canonical->Ok_0@))
            &&& facts[i].ancestors@.len() == facts[i].canonical->Ok_0@.names.len()
            &&& forall|k: int|
                0 <= k < facts[i].ancestors@.len() ==> #[trigger] facts[i].ancestors@[k] == Ok::<
                    u64,
                    String,
                >(identity(workspace::ancestor(facts[i].canonical->Ok_0@, k)))
        }
}

proof fn lemma_pair_passes(
    nesting: bool,
    entries: Seq<EntryView>,
    facts: Seq<RootFacts>,
    separator: u8,
    i: int,
    j: int,
    a: int,
    b: int,
)
    requires
        0 <= i < j,
        i <= a < b < entries.len(),
        i == a ==> j <= b,
        pairs_fault(nesting, entries, facts, separator, i, j) is None,
    ensures
        nesting ==> nesting_fault(entries[a], facts[a], entries[b], facts[b], separator) is None,
        nesting ==> nesting_fault(entries[b], facts[b], entries[a], facts[a], separator) is None,
        !nesting ==> sameness_fault(entries[a], facts[a], entries[b], facts[b], separator) is None,
    decreases entries.len() - i, entries.len() - j,
{
    if j >= entries.len() {
        lemma_pair_passes(nesting, entries, facts, separator, i + 1, i + 2, a, b);
    } else if i == a && j == b {
    } else {
        lemma_pair_passes(nesting, entries, facts, separator, i, j + 1, a, b);
    }
}

proof fn lemma_within_finds(identity: u64, ancestors: Seq<Result<u64, String>>, k: int, at: int)
    requires
        0 <= k <= at < ancestors.len(),
        ancestors[at] == Ok::<u64, String>(identity),
    ensures
        !(within(identity, ancestors, k) is No),
    decreases at - k,
{
    if k < at {
        match ancestors[k] {
            Err(_) => {},
            Ok(found) => {
                if found != identity {
                    lemma_within_finds(identity, ancestors, k + 1, at);
                }
            },
        }
    }
}

proof fn lemma_no_overlap(
    entries: Seq<EntryView>,
    facts: Seq<RootFacts>,
    separator: u8,
    identity: spec_fn(PathView) -> u64,
    outer: int,
    inner: int,
)
    requires
        entries.len() == facts.len(),
        build_fault(entries, facts, separator) is None,
        faithful(facts, identity),
        0 <= outer < facts.len(),
        0 <= inner < facts.len(),
        outer != inner,
    ensures
        !workspace::inside(facts[outer].canonical->Ok_0@, facts[inner].canonical->Ok_0@),
{
    let above = facts[outer].canonical->Ok_0@;
    let below = facts[inner].canonical->Ok_0@;
    if outer < inner {
        lemma_pair_passes(false, entries, facts, separator, 0, 1, outer, inner);
        lemma_pair_passes(true, entries, facts, separator, 0, 1, outer, inner);
    } else {
        lemma_pair_passes(false, entries, facts, separator, 0, 1, inner, outer);
        lemma_pair_passes(true, entries, facts, separator, 0, 1, inner, outer);
    }
    if workspace::inside(above, below) {
        if below.names.len() == above.names.len() {
            assert(below.names.subrange(0, above.names.len() as int) =~= below.names);
            assert(below =~= above);
        } else {
            let k = below.names.len() - 1 - above.names.len();
            assert(below.names.subrange(0, above.names.len() as int) =~= below.names.take(
                above.names.len() as int,
            ));
            assert(workspace::ancestor(below, k) =~= above);
            assert(facts[inner].ancestors@[k] == Ok::<u64, String>(identity(above)));
            lemma_within_finds(identity(above), facts[inner].ancestors@, 0, k);
        }
    }
}

/// No registered workspace lies inside another or is the same directory: so
/// a broad writable workspace cannot bypass a narrow read-only one.
pub proof fn law_roots_never_overlap(
    entries: Seq<EntryView>,
    facts: Seq<RootFacts>,
    separator: u8,
    identity: spec_fn(PathView) -> u64,
)
    requires
        entries.len() == facts.len(),
        build_fault(entries, facts, separator) is None,
        faithful(facts, identity),
    ensures
        forall|i: int, j: int|
            0 <= i < facts.len() && 0 <= j < facts.len() && i != j ==> !workspace::inside(
                (#[trigger] facts[i]).canonical->Ok_0@,
                (#[trigger] facts[j]).canonical->Ok_0@,
            ),
{
    assert forall|i: int, j: int|
        0 <= i < facts.len() && 0 <= j < facts.len() && i != j implies !workspace::inside(
        (#[trigger] facts[i]).canonical->Ok_0@,
        (#[trigger] facts[j]).canonical->Ok_0@,
    ) by {
        lemma_no_overlap(entries, facts, separator, identity, i, j);
    }
}

/// Lookups are exact: a registry holds at most one context per id.
pub proof fn law_ids_are_unique(registry: WorkspaceRegistry, i: int, j: int)
    requires
        registry.wf(),
        0 <= i < registry.contexts().len(),
        0 <= j < registry.contexts().len(),
        registry.contexts()[i].id_view() == registry.contexts()[j].id_view(),
    ensures
        i == j,
{
    let a = registry.contexts()[i].id_view().unwrap();
    text::lemma_precedes_total(a, a);
    if i < j {
        assert(text::precedes(a, registry.contexts()[j].id_view().unwrap()));
    } else if j < i {
        assert(text::precedes(registry.contexts()[j].id_view().unwrap(), a));
    }
}

/// A key has the value that it is first given, and none where it is not
/// given.
pub proof fn law_lookup_finds_the_first(items: Seq<TomlItem>, key: Seq<char>)
    ensures
        lookup(items, key, 0) is None <==> forall|i: int|
            0 <= i < items.len() ==> (#[trigger] items[i]).key@ != key,
        forall|i: int|
            0 <= i < items.len() && (#[trigger] items[i]).key@ == key && (forall|j: int|
                0 <= j < i ==> (#[trigger] items[j]).key@ != key) ==> lookup(items, key, 0) == Some(
                items[i].value,
            ),
{
    lemma_lookup(items, key, 0);
    assert forall|i: int|
        0 <= i < items.len() && (#[trigger] items[i]).key@ == key && (forall|j: int|
            0 <= j < i ==> (#[trigger] items[j]).key@ != key) implies lookup(items, key, 0) == Some(
        items[i].value,
    ) by {
        let p = choose|p: int|
            0 <= p < items.len() && (#[trigger] items[p]).key@ == key && (forall|j: int|
                0 <= j < p ==> (#[trigger] items[j]).key@ != key) && lookup(items, key, 0) == Some(
                items[p].value,
            );
        if p < i {
            assert(items[p].key@ != key);
        } else if i < p {
            assert(items[i].key@ != key);
        }
    }
}

proof fn lemma_lookup(items: Seq<TomlItem>, key: Seq<char>, k: int)
    requires
        0 <= k <= items.len(),
    ensures
        match lookup(items, key, k) {
            None => forall|i: int| k <= i < items.len() ==> (#[trigger] items[i]).key@ != key,
            Some(value) => exists|p: int|
                k <= p < items.len() && (#[trigger] items[p]).key@ == key && (forall|j: int|
                    k <= j < p ==> (#[trigger] items[j]).key@ != key) && value == items[p].value,
        },
    decreases items.len() - k,
{
    if k < items.len() {
        if items[k].key@ == key {
            assert(items[k].key@ == key);
        } else {
            lemma_lookup(items, key, k + 1);
            if lookup(items, key, k + 1) is Some {
                let p = choose|p: int|
                    k + 1 <= p < items.len() && (#[trigger] items[p]).key@ == key && (forall|j: int|
                        k + 1 <= j < p ==> (#[trigger] items[j]).key@ != key) && lookup(
                        items,
                        key,
                        k + 1,
                    ) == Some(items[p].value);
                assert forall|j: int| k <= j < p implies (#[trigger] items[j]).key@ != key by {}
                assert(items[p].key@ == key);
            }
        }
    }
}

/// Whether a field of a workspace declaration is one that is known, with a
/// value of its type.
pub open spec fn proper_field(item: TomlItem) -> bool {
    ||| item.key@ == "root"@ && item.value is Text
    ||| item.key@ == "write"@ && item.value is Boolean
    ||| item.key@ == "exec"@ && item.value is Boolean
    ||| item.key@ == "allow_shell"@ && item.value is Boolean
}

/// Whether a workspace declaration is a table of proper fields with a root,
/// or an array of a root and up to three capabilities.
pub open spec fn proper_entry(item: TomlItem) -> bool {
    match item.value {
        TomlNode::Table(fields) => {
            &&& forall|i: int| 0 <= i < fields@.len() ==> proper_field(#[trigger] fields@[i])
            &&& exists|i: int| 0 <= i < fields@.len() && (#[trigger] fields@[i]).key@ == "root"@
        },
        TomlNode::Array(values) => {
            &&& values@.len() > 0
            &&& values@[0] is Text
            &&& forall|i: int| 1 <= i < values@.len() && i <= 3 ==> #[trigger] values@[i] is Boolean
        },
        _ => false,
    }
}

/// Whether a top-level field is the version or the workspaces.
pub open spec fn proper_top(item: TomlItem) -> bool {
    ||| item.key@ == "version"@ && (item.value matches TomlNode::Integer(n) && n >= 0)
    ||| item.key@ == "workspaces"@ && (item.value matches TomlNode::Table(entries) && forall|i: int|
        0 <= i < entries@.len() ==> proper_entry(#[trigger] entries@[i]))
}

/// A document is accepted exactly where all of it is proper, nothing is
/// missing, and no id is declared twice.
pub proof fn law_accepted_documents(items: Seq<TomlItem>)
    ensures
        schema_fault(items) is None <==> {
            &&& forall|i: int| 0 <= i < items.len() ==> proper_top(#[trigger] items[i])
            &&& exists|i: int| 0 <= i < items.len() && (#[trigger] items[i]).key@ == "version"@
            &&& exists|i: int| 0 <= i < items.len() && (#[trigger] items[i]).key@ == "workspaces"@
        },
        document_fault(items) is None <==> schema_fault(items) is None && forall|i: int, j: int|
            0 <= i < j < declared_workspaces(items).len() ==> (
            #[trigger] declared_workspaces(items)[i]).id != (
            #[trigger] declared_workspaces(items)[j]).id,
{
    lemma_tops(items, 0);
    law_lookup_finds_the_first(items, "version"@);
    law_lookup_finds_the_first(items, "workspaces"@);
    let entries = declared_workspaces(items);
    if document_fault(items) is None {
        law_declared_ids_are_ordered(items);
        assert forall|i: int, j: int| 0 <= i < j < entries.len() implies (#[trigger] entries[i]).id
            != (#[trigger] entries[j]).id by {
            text::lemma_precedes_total(entries[i].id, entries[j].id);
        }
    } else if schema_fault(items) is None {
        lemma_repeat(entries, 1);
    }
}

proof fn lemma_repeat(entries: Seq<EntryView>, k: int)
    requires
        1 <= k,
        first_repeat(entries, k) is Some,
    ensures
        exists|i: int, j: int|
            0 <= i < j < entries.len() && (#[trigger] entries[i]).id == (#[trigger] entries[j]).id,
    decreases entries.len() - k,
{
    if entries[k - 1].id != entries[k].id {
        lemma_repeat(entries, k + 1);
    }
}

proof fn lemma_tops(items: Seq<TomlItem>, k: int)
    requires
        0 <= k <= items.len(),
    ensures
        tops_fault(items, k) is None <==> forall|i: int|
            k <= i < items.len() ==> proper_top(#[trigger] items[i]),
    decreases items.len() - k,
{
    reveal_strlit("version");
    reveal_strlit("workspaces");
    assert("version"@.len() == 7);
    assert("workspaces"@.len() == 10);
    if k < items.len() {
        lemma_tops(items, k + 1);
        if let TomlNode::Table(entries) = items[k].value {
            lemma_entries(entries@, 0);
        }
        assert(top_fault(items[k]) is None <==> proper_top(items[k]));
        if tops_fault(items, k) is None {
            assert forall|i: int| k <= i < items.len() implies proper_top(#[trigger] items[i]) by {}
        }
    }
}

proof fn lemma_entries(items: Seq<TomlItem>, k: int)
    requires
        0 <= k <= items.len(),
    ensures
        entries_fault(items, k) is None <==> forall|i: int|
            k <= i < items.len() ==> proper_entry(#[trigger] items[i]),
    decreases items.len() - k,
{
    if k < items.len() {
        lemma_entries(items, k + 1);
        lemma_entry(items[k]);
        if entries_fault(items, k) is None {
            assert forall|i: int| k <= i < items.len() implies proper_entry(#[trigger] items[i]) by {}
        }
    }
}

proof fn lemma_entry(item: TomlItem)
    ensures
        entry_fault(item) is None <==> proper_entry(item),
{
    match item.value {
        TomlNode::Table(fields) => {
            lemma_fields(fields@, 0);
            law_lookup_finds_the_first(fields@, "root"@);
        },
        TomlNode::Array(values) => {
            if listed_fault(values@) is None {
                assert forall|i: int| 1 <= i < values@.len() && i <= 3 implies #[trigger] values@[i] is Boolean by {
                    assert(i == 1 || i == 2 || i == 3);
                }
            } else if values@.len() > 0 && values@[0] is Text {
                assert(listed_flag_fault(values@, 1, "write"@) is Some || listed_flag_fault(
                    values@,
                    2,
                    "exec"@,
                ) is Some || listed_flag_fault(values@, 3, "allow_shell"@) is Some);
            }
        },
        _ => {},
    }
}

proof fn lemma_fields(items: Seq<TomlItem>, k: int)
    requires
        0 <= k <= items.len(),
    ensures
        fields_fault(items, k) is None <==> forall|i: int|
            k <= i < items.len() ==> proper_field(#[trigger] items[i]),
    decreases items.len() - k,
{
    reveal_strlit("root");
    reveal_strlit("write");
    reveal_strlit("exec");
    reveal_strlit("allow_shell");
    assert("root"@.len() == 4);
    assert("root"@[0] == 'r');
    assert("exec"@[0] == 'e');
    assert("write"@.len() == 5);
    assert("allow_shell"@.len() == 11);
    if k < items.len() {
        lemma_fields(items, k + 1);
        assert(field_fault(items[k]) is None <==> proper_field(items[k]));
        if fields_fault(items, k) is None {
            assert forall|i: int| k <= i < items.len() implies proper_field(#[trigger] items[i]) by {}
        }
    }
}

/// A declaration means what it writes: the key is the id, the root is as
/// written, and a capability is on exactly where it is written as true. In an
/// array the values come in that order.
pub proof fn law_declarations_mean_what_they_write(item: TomlItem)
    requires
        proper_entry(item),
    ensures
        declared_entry(item).id == item.key@,
        item.value matches TomlNode::Table(fields) ==> forall|i: int|
            0 <= i < fields@.len() && (forall|j: int|
                0 <= j < i ==> (#[trigger] fields@[j]).key@ != fields@[i].key@) ==> {
                let field = #[trigger] fields@[i];
                &&& field.key@ == "root"@ ==> (field.value matches TomlNode::Text(root)
                    && declared_entry(item).root == root@)
                &&& field.key@ == "write"@ ==> field.value == TomlNode::Boolean(
                    declared_entry(item).write,
                )
                &&& field.key@ == "exec"@ ==> field.value == TomlNode::Boolean(
                    declared_entry(item).execute,
                )
                &&& field.key@ == "allow_shell"@ ==> field.value == TomlNode::Boolean(
                    declared_entry(item).allow_shell,
                )
            },
        item.value matches TomlNode::Table(fields) ==> {
            &&& declared_entry(item).write ==> exists|i: int|
                0 <= i < fields@.len() && (#[trigger] fields@[i]).key@ == "write"@
            &&& declared_entry(item).execute ==> exists|i: int|
                0 <= i < fields@.len() && (#[trigger] fields@[i]).key@ == "exec"@
            &&& declared_entry(item).allow_shell ==> exists|i: int|
                0 <= i < fields@.len() && (#[trigger] fields@[i]).key@ == "allow_shell"@
        },
        item.value matches TomlNode::Array(values) ==> {
            &&& values@[0] matches TomlNode::Text(root)
            &&& declared_entry(item).root == root@
            &&& declared_entry(item).write <==> values@.len() > 1 && values@[1]
                == TomlNode::Boolean(true)
            &&& declared_entry(item).execute <==> values@.len() > 2 && values@[2]
                == TomlNode::Boolean(true)
            &&& declared_entry(item).allow_shell <==> values@.len() > 3 && values@[3]
                == TomlNode::Boolean(true)
        },
{
    reveal_strlit("root");
    reveal_strlit("write");
    reveal_strlit("exec");
    reveal_strlit("allow_shell");
    assert("root"@.len() == 4);
    assert("root"@[0] == 'r');
    assert("exec"@[0] == 'e');
    assert("write"@.len() == 5);
    assert("allow_shell"@.len() == 11);
    if let TomlNode::Table(fields) = item.value {
        law_lookup_finds_the_first(fields@, "root"@);
        law_lookup_finds_the_first(fields@, "write"@);
        law_lookup_finds_the_first(fields@, "exec"@);
        law_lookup_finds_the_first(fields@, "allow_shell"@);
        assert forall|i: int|
            0 <= i < fields@.len() && (forall|j: int|
                0 <= j < i ==> (#[trigger] fields@[j]).key@ != fields@[i].key@) implies {
            let field = #[trigger] fields@[i];
            &&& field.key@ == "root"@ ==> (field.value matches TomlNode::Text(root)
                && declared_entry(item).root == root@)
            &&& field.key@ == "write"@ ==> field.value == TomlNode::Boolean(
                declared_entry(item).write,
            )
            &&& field.key@ == "exec"@ ==> field.value == TomlNode::Boolean(
                declared_entry(item).execute,
            )
            &&& field.key@ == "allow_shell"@ ==> field.value == TomlNode::Boolean(
                declared_entry(item).allow_shell,
            )
        } by {
            let field = fields@[i];
            assert(proper_field(field));
            assert(lookup(fields@, field.key@, 0) == Some(field.value)) by {
                law_lookup_finds_the_first(fields@, field.key@);
            }
        }
    }
}

/// Every declaration becomes one workspace, and nothing else does.
pub proof fn law_every_declaration_counts(items: Seq<TomlItem>)
    ensures
        declared_entries(items).len() == items.len(),
        forall|i: int|
            0 <= i < items.len() ==> declared_entries(items).contains(
                declared_entry(#[trigger] items[i]),
            ),
        forall|k: int|
            0 <= k < declared_entries(items).len() ==> exists|i: int|
                0 <= i < items.len() && declared_entry(#[trigger] items[i]) == (
                #[trigger] declared_entries(items)[k]),
    decreases items.len(),
{
    if items.len() > 0 {
        let front = items.drop_last();
        let before = declared_entries(front);
        let entry = declared_entry(items.last());
        law_every_declaration_counts(front);
        lemma_inserted_holds(before, entry);
        let all = declared_entries(items);
        assert forall|i: int| 0 <= i < items.len() implies all.contains(
            declared_entry(#[trigger] items[i]),
        ) by {
            if i < front.len() {
                assert(front[i] == items[i]);
                let k = choose|k: int| 0 <= k < before.len() && before[k] == declared_entry(front[i]);
                assert(all.contains(before[k]));
            }
        }
        assert forall|k: int| 0 <= k < all.len() implies exists|i: int|
            0 <= i < items.len() && declared_entry(#[trigger] items[i]) == (#[trigger] all[k]) by {
            if all[k] == entry {
                assert(declared_entry(items[items.len() - 1]) == all[k]);
            } else {
                let m = choose|m: int| 0 <= m < before.len() && before[m] == all[k];
                let i = choose|i: int|
                    0 <= i < front.len() && declared_entry(#[trigger] front[i]) == before[m];
                assert(declared_entry(items[i]) == all[k]);
            }
        }
    }
}

proof fn lemma_inserted_holds(entries: Seq<EntryView>, entry: EntryView)
    ensures
        inserted(entries, entry).len() == entries.len() + 1,
        inserted(entries, entry).contains(entry),
        forall|k: int|
            0 <= k < entries.len() ==> inserted(entries, entry).contains(#[trigger] entries[k]),
        forall|k: int|
            0 <= k < inserted(entries, entry).len() ==> (#[trigger] inserted(entries, entry)[k])
                == entry || entries.contains(inserted(entries, entry)[k]),
    decreases entries.len(),
{
    let all = inserted(entries, entry);
    if entries.len() > 0 && text::precedes(entry.id, entries.last().id) {
        let front = entries.drop_last();
        let inner = inserted(front, entry);
        lemma_inserted_holds(front, entry);
        assert(all == inner.push(entries.last()));
        let m = choose|m: int| 0 <= m < inner.len() && inner[m] == entry;
        assert(all[m] == entry);
        assert forall|k: int| 0 <= k < entries.len() implies all.contains(#[trigger] entries[k]) by {
            if k < front.len() {
                assert(front[k] == entries[k]);
                let n = choose|n: int| 0 <= n < inner.len() && inner[n] == front[k];
                assert(all[n] == entries[k]);
            } else {
                assert(all[inner.len() as int] == entries[k]);
            }
        }
        assert forall|k: int| 0 <= k < all.len() implies (#[trigger] all[k]) == entry
            || entries.contains(all[k]) by {
            if k < inner.len() {
                assert(all[k] == inner[k]);
                if inner[k] != entry {
                    let n = choose|n: int| 0 <= n < front.len() && front[n] == inner[k];
                    assert(entries[n] == all[k]);
                }
            } else {
                assert(entries[entries.len() - 1] == all[k]);
            }
        }
    } else {
        assert(all[entries.len() as int] == entry);
        assert forall|k: int| 0 <= k < entries.len() implies all.contains(#[trigger] entries[k]) by {
            assert(all[k] == entries[k]);
        }
        assert forall|k: int| 0 <= k < all.len() implies (#[trigger] all[k]) == entry
            || entries.contains(all[k]) by {
            if k < entries.len() {
                assert(entries[k] == all[k]);
            }
        }
    }
}

/// Before the disk is looked at, a configuration is in order exactly where
/// its version is supported, it declares one to sixty-four workspaces, every
/// id is one, and every root is absolute.
pub proof fn law_declarations_in_order(version: u64, entries: Seq<EntryView>, absolute: Seq<bool>)
    requires
        absolute.len() == entries.len(),
    ensures
        outline_fault(version, entries) is None <==> version == 1 && 1 <= entries.len() <= 64
            && forall|i: int|
            0 <= i < entries.len() ==> workspace_id::is_id((#[trigger] entries[i]).id),
        declared_fault(version, entries, absolute) is None <==> outline_fault(version, entries) is None
            && forall|i: int| 0 <= i < entries.len() ==> #[trigger] absolute[i],
{
    lemma_ids(entries, 0);
    lemma_relatives(entries, absolute, 0);
}

proof fn lemma_ids(entries: Seq<EntryView>, k: int)
    requires
        0 <= k <= entries.len(),
    ensures
        ids_fault(entries, k) is None <==> forall|i: int|
            k <= i < entries.len() ==> workspace_id::is_id((#[trigger] entries[i]).id),
    decreases entries.len() - k,
{
    if k < entries.len() {
        lemma_ids(entries, k + 1);
        assert(workspace_id::is_id(entries[k].id) || ids_fault(entries, k) is Some);
    }
}

proof fn lemma_relatives(entries: Seq<EntryView>, absolute: Seq<bool>, k: int)
    requires
        0 <= k <= entries.len() == absolute.len(),
    ensures
        relative_fault(entries, absolute, k) is None <==> forall|i: int|
            k <= i < entries.len() ==> #[trigger] absolute[i],
    decreases entries.len() - k,
{
    if k < entries.len() {
        lemma_relatives(entries, absolute, k + 1);
        assert(absolute[k] || relative_fault(entries, absolute, k) is Some);
    }
}

/// Declared roots are accepted exactly where each is a known directory, each
/// declaration allows a shell only where it allows programs, no two roots are
/// the same directory, and none is found, or might be, above another.
pub proof fn law_accepted_roots(entries: Seq<EntryView>, facts: Seq<RootFacts>, separator: u8)
    requires
        facts.len() == entries.len(),
    ensures
        build_fault(entries, facts, separator) is None <==> {
            &&& forall|i: int|
                0 <= i < facts.len() ==> (#[trigger] facts[i]).exists && facts[i].directory
                    && facts[i].canonical is Ok && facts[i].identity is Ok
            &&& forall|i: int|
                0 <= i < entries.len() ==> ((#[trigger] entries[i]).allow_shell
                    ==> entries[i].execute)
            &&& forall|i: int, j: int|
                0 <= i < j < facts.len() ==> (#[trigger] facts[i]).identity->Ok_0 != (
                #[trigger] facts[j]).identity->Ok_0
            &&& forall|i: int, j: int|
                0 <= i < facts.len() && 0 <= j < facts.len() && i != j ==> #[trigger] apart(
                    facts[i],
                    facts[j],
                )
        },
{
    lemma_roots(RootCheck::Place, entries, facts, separator, 0);
    lemma_roots(RootCheck::Canonical, entries, facts, separator, 0);
    lemma_roots(RootCheck::Identity, entries, facts, separator, 0);
    lemma_roots(RootCheck::Shell, entries, facts, separator, 0);
    let same = pairs_fault(false, entries, facts, separator, 0, 1);
    let nested = pairs_fault(true, entries, facts, separator, 0, 1);
    if build_fault(entries, facts, separator) is None {
        assert forall|i: int|
            0 <= i < facts.len() implies (#[trigger] facts[i]).exists && facts[i].directory
            && facts[i].canonical is Ok && facts[i].identity is Ok by {
            assert(root_fault(RootCheck::Place, entries[i], facts[i], separator) is None);
            assert(root_fault(RootCheck::Canonical, entries[i], facts[i], separator) is None);
            assert(root_fault(RootCheck::Identity, entries[i], facts[i], separator) is None);
        }
        assert forall|i: int| 0 <= i < entries.len() implies ((#[trigger] entries[i]).allow_shell
            ==> entries[i].execute) by {
            assert(root_fault(RootCheck::Shell, entries[i], facts[i], separator) is None);
        }
        assert forall|i: int, j: int| 0 <= i < j < facts.len() implies (
        #[trigger] facts[i]).identity->Ok_0 != (#[trigger] facts[j]).identity->Ok_0 by {
            lemma_pair_passes(false, entries, facts, separator, 0, 1, i, j);
        }
        assert forall|i: int, j: int|
            0 <= i < facts.len() && 0 <= j < facts.len() && i != j implies #[trigger] apart(
            facts[i],
            facts[j],
        ) by {
            if i < j {
                lemma_pair_passes(true, entries, facts, separator, 0, 1, i, j);
            } else {
                lemma_pair_passes(true, entries, facts, separator, 0, 1, j, i);
            }
            lemma_within_no(facts[i].identity->Ok_0, facts[j].ancestors@, 0);
        }
    } else if same is Some {
        let (i, j) = lemma_pair_fails(false, entries, facts, separator, 0, 1);
        assert(facts[i].identity->Ok_0 == facts[j].identity->Ok_0);
    } else if nested is Some {
        let (i, j) = lemma_pair_fails(true, entries, facts, separator, 0, 1);
        lemma_within_no(facts[i].identity->Ok_0, facts[j].ancestors@, 0);
        assert(!apart(facts[i], facts[j]));
    } else {
        let check = if roots_fault(RootCheck::Place, entries, facts, separator, 0) is Some {
            RootCheck::Place
        } else if roots_fault(RootCheck::Canonical, entries, facts, separator, 0) is Some {
            RootCheck::Canonical
        } else if roots_fault(RootCheck::Identity, entries, facts, separator, 0) is Some {
            RootCheck::Identity
        } else {
            RootCheck::Shell
        };
        let i = choose|i: int|
            0 <= i < entries.len() && root_fault(
                check,
                #[trigger] entries[i],
                facts[i],
                separator,
            ) is Some;
        assert(!(facts[i].exists && facts[i].directory && facts[i].canonical is Ok
            && facts[i].identity is Ok) || (entries[i].allow_shell && !entries[i].execute));
    }
}

/// Whether everything above one root is known and none of it is another.
pub open spec fn apart(outer: RootFacts, inner: RootFacts) -> bool {
    forall|k: int|
        0 <= k < inner.ancestors@.len() ==> (#[trigger] inner.ancestors@[k] matches Ok(found) && found
            != outer.identity->Ok_0)
}

proof fn lemma_within_no(identity: u64, ancestors: Seq<Result<u64, String>>, k: int)
    requires
        0 <= k <= ancestors.len(),
    ensures
        within(identity, ancestors, k) is No <==> forall|i: int|
            k <= i < ancestors.len() ==> (#[trigger] ancestors[i] matches Ok(found) && found
                != identity),
    decreases ancestors.len() - k,
{
    if k < ancestors.len() {
        lemma_within_no(identity, ancestors, k + 1);
        if !(within(identity, ancestors, k) is No) {
            if ancestors[k] is Ok && ancestors[k]->Ok_0 != identity {
                let i = choose|i: int|
                    k + 1 <= i < ancestors.len() && !(#[trigger] ancestors[i] matches Ok(found) && found
                        != identity);
                assert(!(ancestors[i] matches Ok(found) && found != identity));
            } else {
                assert(!(ancestors[k] matches Ok(found) && found != identity));
            }
        }
    }
}

proof fn lemma_roots(
    check: RootCheck,
    entries: Seq<EntryView>,
    facts: Seq<RootFacts>,
    separator: u8,
    k: int,
)
    requires
        0 <= k <= entries.len() == facts.len(),
    ensures
        roots_fault(check, entries, facts, separator, k) is None <==> forall|i: int|
            k <= i < entries.len() ==> root_fault(
                check,
                #[trigger] entries[i],
                facts[i],
                separator,
            ) is None,
    decreases entries.len() - k,
{
    if k < entries.len() {
        lemma_roots(check, entries, facts, separator, k + 1);
        if roots_fault(check, entries, facts, separator, k) is Some && root_fault(
            check,
            entries[k],
            facts[k],
            separator,
        ) is None {
            let i = choose|i: int|
                k + 1 <= i < entries.len() && root_fault(
                    check,
                    #[trigger] entries[i],
                    facts[i],
                    separator,
                ) is Some;
            assert(root_fault(check, entries[i], facts[i], separator) is Some);
        } else {
            assert(entries[k] == entries[k]);
        }
    }
}

proof fn lemma_pair_fails(
    nesting: bool,
    entries: Seq<EntryView>,
    facts: Seq<RootFacts>,
    separator: u8,
    i: int,
    j: int,
) -> (pair: (int, int))
    requires
        0 <= i < j,
        pairs_fault(nesting, entries, facts, separator, i, j) is Some,
    ensures
        0 <= pair.0 < entries.len(),
        0 <= pair.1 < entries.len(),
        pair.0 != pair.1,
        nesting ==> nesting_fault(
            entries[pair.0],
            facts[pair.0],
            entries[pair.1],
            facts[pair.1],
            separator,
        ) is Some,
        !nesting ==> pair.0 < pair.1 && sameness_fault(
            entries[pair.0],
            facts[pair.0],
            entries[pair.1],
            facts[pair.1],
            separator,
        ) is Some,
    decreases entries.len() - i, entries.len() - j,
{
    if j >= entries.len() {
        lemma_pair_fails(nesting, entries, facts, separator, i + 1, i + 2)
    } else if nesting && nesting_fault(entries[i], facts[i], entries[j], facts[j], separator) is Some {
        (i, j)
    } else if nesting && nesting_fault(entries[j], facts[j], entries[i], facts[i], separator) is Some {
        (j, i)
    } else if !nesting && sameness_fault(entries[i], facts[i], entries[j], facts[j], separator) is Some {
        (i, j)
    } else {
        lemma_pair_fails(nesting, entries, facts, separator, i, j + 1)
    }
}

/// A registry holds one workspace for each declaration, with its id, its
/// canonical root, and exactly the capabilities that it declares.
pub proof fn law_registry_holds_the_declarations(
    registry: WorkspaceRegistry,
    raw: Seq<char>,
    absolute: Seq<bool>,
    facts: Seq<RootFacts>,
    separator: u8,
    i: int,
)
    requires
        comes_of(Ok(registry), raw, absolute, facts, separator),
        0 <= i < registry.contexts().len(),
    ensures
        toml_document(raw) matches Ok(items) && {
            let entries = declared_workspaces(items);
            let context = registry.contexts()[i];
            &&& entries.len() == registry.contexts().len()
            &&& context.id_view() == Some(entries[i].id)
            &&& facts[i].canonical matches Ok(path)
            &&& context.resolver_view().root_view() == path@
            &&& context.permissions_view().read
            &&& context.permissions_view().write == entries[i].write
            &&& context.permissions_view().execute == entries[i].execute
            &&& context.permissions_view().shell == entries[i].allow_shell
        },
{
    let items = toml_document(raw)->Ok_0;
    assert(context_of(
        registry.contexts()[i],
        declared_workspaces(items)[i],
        facts[i],
        separator,
    ));
}

/// A configuration that is in order is loaded.
pub proof fn law_ordered_configurations_load(
    result: Result<WorkspaceRegistry, SetupError>,
    raw: Seq<char>,
    items: Seq<TomlItem>,
    absolute: Seq<bool>,
    facts: Seq<RootFacts>,
    separator: u8,
)
    requires
        comes_of(result, raw, absolute, facts, separator),
        toml_document(raw) == Ok::<Seq<TomlItem>, Seq<char>>(items),
    ensures
        result is Ok <==> document_fault(items) is None && declared_fault(
            declared_version(items),
            declared_workspaces(items),
            absolute,
        ) is None && build_fault(declared_workspaces(items), facts, separator) is None,
{
}

/// The version and the workspaces of a document are those that it writes
/// under their keys, whatever else stands around them.
pub proof fn law_documents_mean_what_they_write(
    before: Seq<TomlItem>,
    item: TomlItem,
    after: Seq<TomlItem>,
)
    requires
        forall|i: int| 0 <= i < before.len() ==> (#[trigger] before[i]).key@ != item.key@,
    ensures
        item.key@ == "version"@ ==> (item.value matches TomlNode::Integer(n) ==> n >= 0
            ==> declared_version(before.push(item) + after) == n),
        item.key@ == "workspaces"@ ==> (item.value matches TomlNode::Table(entries)
            ==> declared_workspaces(before.push(item) + after) == declared_entries(entries@)),
{
    let items = before.push(item) + after;
    let at = before.len() as int;
    assert(items[at] == item);
    assert forall|j: int| 0 <= j < at implies (#[trigger] items[j]).key@ != item.key@ by {
        assert(items[j] == before[j]);
    }
    law_lookup_finds_the_first(items, item.key@);
}

/// The filesystem and the platform are asked about every declared root, as it
/// is written.
pub proof fn law_every_root_is_asked_about<F: Fn(&str) -> RootFacts>(
    probe: F,
    entries: Seq<EntryView>,
    facts: Seq<RootFacts>,
    absolute: Seq<bool>,
    i: int,
)
    requires
        answered(probe, entries, facts),
        judged(absolute, entries),
        0 <= i < entries.len(),
    ensures
        facts.len() == entries.len(),
        absolute.len() == entries.len(),
        exists|given: &str|
            given@ == entries[i].root && #[trigger] call_ensures(probe, (given,), facts[i]),
        workspace::told_absolute(entries[i].root, absolute[i]),
{
    assert(told(probe, entries[i].root, facts[i]));
    assert(workspace::told_absolute(entries[i].root, absolute[i]));
}

/// What comes of a configuration text comes of what the filesystem and the
/// platform say of its declared roots.
pub proof fn law_configurations_come_of_their_roots<F: Fn(&str) -> RootFacts>(
    registry: WorkspaceRegistry,
    raw: Seq<char>,
    separator: u8,
    probe: F,
    absolute: Seq<bool>,
    facts: Seq<RootFacts>,
)
    requires
        comes_of_probe(Ok(registry), raw, separator, probe, absolute, facts),
    ensures
        comes_of(Ok(registry), raw, absolute, facts, separator),
        toml_document(raw) matches Ok(items) && answered(probe, declared_workspaces(items), facts)
            && judged(absolute, declared_workspaces(items)),
{
}

/// What a list of declarations declares is what each of them does, one by one.
pub proof fn law_entry_views_are_the_declarations(entries: Seq<WorkspaceConfigEntry>)
    ensures
        entry_views(entries).len() == entries.len(),
        forall|i: int|
            0 <= i < entries.len() ==> {
                let view = #[trigger] entry_views(entries)[i];
                &&& view.id == entries[i].id@
                &&& view.root == entries[i].root@
                &&& view.write == entries[i].write
                &&& view.execute == entries[i].execute
                &&& view.allow_shell == entries[i].allow_shell
            },
{
}

/// The first id that is not one is the one that is refused, and by its own
/// fault.
pub proof fn law_first_bad_id_is_named(entries: Seq<EntryView>, k: int)
    requires
        1 <= entries.len() <= 64,
        0 <= k < entries.len(),
        !workspace_id::is_id(entries[k].id),
        forall|i: int| 0 <= i < k ==> workspace_id::is_id((#[trigger] entries[i]).id),
    ensures
        outline_fault(1, entries) == Some(
            "invalid workspace id '"@ + entries[k].id + "': "@ + workspace_id::id_fault(
                entries[k].id,
            ),
        ),
{
    lemma_first_bad_id(entries, 0, k);
}

proof fn lemma_first_bad_id(entries: Seq<EntryView>, from: int, k: int)
    requires
        0 <= from <= k < entries.len(),
        !workspace_id::is_id(entries[k].id),
        forall|i: int| from <= i < k ==> workspace_id::is_id((#[trigger] entries[i]).id),
    ensures
        ids_fault(entries, from) == Some(
            "invalid workspace id '"@ + entries[k].id + "': "@ + workspace_id::id_fault(
                entries[k].id,
            ),
        ),
    decreases k - from,
{
    if from < k {
        assert(workspace_id::is_id(entries[from].id));
        lemma_first_bad_id(entries, from + 1, k);
    }
}

/// The refusal of a root names its workspace.
pub proof fn law_root_refusals_name_the_workspace(
    check: RootCheck,
    entry: EntryView,
    facts: RootFacts,
    separator: u8,
    fault: Seq<char>,
)
    requires
        root_fault(check, entry, facts, separator) == Some(fault),
        !(check is Identity),
    ensures
        text::begins_with(fault, "Workspace '"@ + entry.id + "': "@),
{
    reveal_strlit("': root '");
    reveal_strlit("': ");
    reveal_strlit("': invalid root: Failed to resolve workspace root '");
    reveal_strlit(
        "': allow_shell = true requires exec = true. Shell execution is a superset of program execution.",
    );
    let head = "Workspace '"@ + entry.id + "': "@;
    assert(fault.subrange(0, head.len() as int) =~= head);
}

} // verus!
