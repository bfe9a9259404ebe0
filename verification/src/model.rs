//! An abstract model of TOML data, as far as this library reads and writes it.
//!
//! A table is modelled as the ordered sequence of its entries, exactly as
//! `toml_edit` keeps them (an insertion-ordered map). Entries whose item is
//! empty (`Item::None`) are kept in the model, because they still occupy a
//! position, but they are invisible to lookups and iteration.

use vstd::prelude::*;
use toml_edit::Value;

verus! {

/// What one TOML item or value holds.
pub enum TomlNode {
    /// An empty slot (`Item::None`).
    Absent,
    /// A string value.
    Text(Seq<char>),
    /// A boolean value.
    Flag(bool),
    /// An integer, float or date-time value, as `toml_edit` holds it.
    Scalar(Value),
    /// An array of values, one node per slot.
    Array(Seq<TomlNode>),
    /// An inline table `{ .. }`.
    Inline(Seq<(Seq<char>, TomlNode)>),
    /// A standard table `[..]`.
    Table(Seq<(Seq<char>, TomlNode)>),
    /// An array of tables `[[..]]`.
    TableArray,
}

/// The entries of a table, in order.
pub type Entries = Seq<(Seq<char>, TomlNode)>;

/// The node stored under the first entry with key `k`, if any (it may be `Absent`).
pub open spec fn entry_at(e: Entries, k: Seq<char>) -> Option<TomlNode>
    decreases e.len(),
{
    if e.len() == 0 {
        None
    } else if e[0].0 == k {
        Some(e[0].1)
    } else {
        entry_at(e.drop_first(), k)
    }
}

/// The node visible under key `k`: present and not an empty slot.
pub open spec fn lookup(e: Entries, k: Seq<char>) -> Option<TomlNode> {
    match entry_at(e, k) {
        Some(n) => if n is Absent {
            None
        } else {
            Some(n)
        },
        None => None,
    }
}

/// Inserting `k = v`: replaces the entry in place if the key is there, else appends.
pub open spec fn insert_entry(e: Entries, k: Seq<char>, v: TomlNode) -> Entries
    decreases e.len(),
{
    if e.len() == 0 {
        seq![(k, v)]
    } else if e[0].0 == k {
        e.update(0, (k, v))
    } else {
        seq![e[0]] + insert_entry(e.drop_first(), k, v)
    }
}

/// Removing key `k`, keeping the order of the other entries.
pub open spec fn remove_entry(e: Entries, k: Seq<char>) -> Entries
    decreases e.len(),
{
    if e.len() == 0 {
        e
    } else if e[0].0 == k {
        remove_entry(e.drop_first(), k)
    } else {
        seq![e[0]] + remove_entry(e.drop_first(), k)
    }
}

/// The entries that iteration shows: those that are not empty slots.
pub open spec fn visible(e: Entries) -> Entries
    decreases e.len(),
{
    if e.len() == 0 {
        e
    } else if e[0].1 is Absent {
        visible(e.drop_first())
    } else {
        seq![e[0]] + visible(e.drop_first())
    }
}

/// The keys of a sequence of entries.
pub open spec fn keys_of(e: Entries) -> Seq<Seq<char>> {
    e.map_values(|p: (Seq<char>, TomlNode)| p.0)
}

/// No key occurs twice.
pub open spec fn distinct_keys(e: Entries) -> bool {
    forall|i: int, j: int| 0 <= i < j < e.len() ==> e[i].0 != e[j].0
}

/// A table whose keys are distinct, as are those of each table directly in
/// it (as in every `toml_edit` table, which maps each key once).
pub open spec fn nested_keys_distinct(t: Entries) -> bool {
    &&& distinct_keys(t)
    &&& forall|k: Seq<char>|
        #[trigger] lookup(t, k) matches Some(TomlNode::Table(u)) ==> distinct_keys(u)
}

/// A document's root table with distinct keys, whose tables and the tables
/// directly in them have distinct keys too.
pub open spec fn document_keys_distinct(root: Entries) -> bool {
    &&& distinct_keys(root)
    &&& forall|k: Seq<char>|
        #[trigger] lookup(root, k) matches Some(TomlNode::Table(t)) ==> nested_keys_distinct(t)
}

// ---------------------------------------------------------------- dependency specifications

/// The dependency declares a local `path`.
pub open spec fn dep_has_path(n: TomlNode) -> bool {
    match n {
        TomlNode::Inline(e) => lookup(e, "path"@) is Some,
        TomlNode::Table(e) => lookup(e, "path"@) is Some,
        _ => false,
    }
}

/// The dependency already reads `workspace = true`.
pub open spec fn dep_is_workspace(n: TomlNode) -> bool {
    match n {
        TomlNode::Inline(e) => lookup(e, "workspace"@) == Some(TomlNode::Flag(true)),
        TomlNode::Table(e) => lookup(e, "workspace"@) == Some(TomlNode::Flag(true)),
        _ => false,
    }
}

/// The version requirement in a table-like dependency, unless it has a path.
pub open spec fn table_dep_version(e: Entries) -> Option<Seq<char>> {
    if lookup(e, "path"@) is Some {
        None
    } else {
        match lookup(e, "version"@) {
            Some(TomlNode::Text(v)) => Some(v),
            _ => None,
        }
    }
}

/// The version requirement of a dependency: the string itself for `name = "1.0"`,
/// the `version` key of a table form without a `path`, and nothing otherwise.
pub open spec fn dep_version(n: TomlNode) -> Option<Seq<char>> {
    match n {
        TomlNode::Text(s) => Some(s),
        TomlNode::Inline(e) => table_dep_version(e),
        TomlNode::Table(e) => table_dep_version(e),
        _ => None,
    }
}

/// The entries of a table-like dependency once it defers to the workspace:
/// `version` removed, `workspace = true` set, every other key kept in place.
pub open spec fn defer_entries(e: Entries) -> Entries {
    insert_entry(remove_entry(e, "version"@), "workspace"@, TomlNode::Flag(true))
}

/// A dependency rewritten to defer to the workspace. A plain version string
/// becomes `{ workspace = true }`; forms that are neither strings nor tables
/// are left as they are.
pub open spec fn deferred(n: TomlNode) -> TomlNode {
    match n {
        TomlNode::Text(_) => TomlNode::Inline(seq![("workspace"@, TomlNode::Flag(true))]),
        TomlNode::Inline(e) => TomlNode::Inline(defer_entries(e)),
        TomlNode::Table(e) => TomlNode::Table(defer_entries(e)),
        _ => n,
    }
}

// ---------------------------------------------------------------- the workspace table

/// The `workspace` table of a root table, or nothing when there is none.
pub open spec fn workspace_of(root: Entries) -> Entries {
    match lookup(root, "workspace"@) {
        Some(TomlNode::Table(ws)) => ws,
        _ => Seq::empty(),
    }
}

/// The `workspace.dependencies` table of a root table, or nothing when there is none.
pub open spec fn workspace_deps_of(root: Entries) -> Entries {
    match lookup(workspace_of(root), "dependencies"@) {
        Some(TomlNode::Table(d)) => d,
        _ => Seq::empty(),
    }
}

/// `workspace` and `workspace.dependencies`, where present, are standard tables.
pub open spec fn workspace_deps_fit(root: Entries) -> bool {
    match lookup(root, "workspace"@) {
        None => true,
        Some(TomlNode::Table(ws)) => match lookup(ws, "dependencies"@) {
            None => true,
            Some(TomlNode::Table(_)) => true,
            _ => false,
        },
        _ => false,
    }
}

/// The root table with `workspace.dependencies` set to `deps`, creating the
/// `workspace` table and its `dependencies` table at the end where missing.
pub open spec fn with_workspace_deps(root: Entries, deps: Entries) -> Entries {
    insert_entry(
        root,
        "workspace"@,
        TomlNode::Table(insert_entry(workspace_of(root), "dependencies"@, TomlNode::Table(deps))),
    )
}

// ---------------------------------------------------------------- lemmas on entries

pub proof fn lemma_insert_then_lookup(e: Entries, k: Seq<char>, v: TomlNode, k2: Seq<char>)
    ensures
        entry_at(insert_entry(e, k, v), k2) == (if k2 == k {
            Some(v)
        } else {
            entry_at(e, k2)
        }),
        lookup(insert_entry(e, k, v), k2) == (if k2 == k {
            if v is Absent {
                None
            } else {
                Some(v)
            }
        } else {
            lookup(e, k2)
        }),
    decreases e.len(),
{
    if e.len() == 0 {
        let a = seq![(k, v)];
        assert(a[0] == (k, v));
        assert(a.drop_first() =~= Seq::<(Seq<char>, TomlNode)>::empty());
        assert(entry_at(a.drop_first(), k2) is None);
    } else if e[0].0 == k {
        let a = e.update(0, (k, v));
        assert(a[0] == (k, v));
        assert(a.drop_first() =~= e.drop_first());
    } else {
        lemma_insert_then_lookup(e.drop_first(), k, v, k2);
        let a = seq![e[0]] + insert_entry(e.drop_first(), k, v);
        assert(a[0] == e[0]);
        assert(a.drop_first() =~= insert_entry(e.drop_first(), k, v));
    }
}

pub proof fn lemma_insert_twice(e: Entries, k: Seq<char>, v1: TomlNode, v2: TomlNode)
    ensures
        insert_entry(insert_entry(e, k, v1), k, v2) == insert_entry(e, k, v2),
    decreases e.len(),
{
    if e.len() == 0 {
        assert(seq![(k, v1)].update(0, (k, v2)) =~= seq![(k, v2)]);
    } else if e[0].0 == k {
        assert(e.update(0, (k, v1)).update(0, (k, v2)) =~= e.update(0, (k, v2)));
    } else {
        lemma_insert_twice(e.drop_first(), k, v1, v2);
        let a = seq![e[0]] + insert_entry(e.drop_first(), k, v1);
        assert(a[0] == e[0]);
        assert(a.drop_first() =~= insert_entry(e.drop_first(), k, v1));
    }
}

pub proof fn lemma_insert_new_key(e: Entries, k: Seq<char>, v: TomlNode)
    requires
        forall|i: int| 0 <= i < e.len() ==> (#[trigger] e[i]).0 != k,
    ensures
        insert_entry(e, k, v) == e.push((k, v)),
    decreases e.len(),
{
    if e.len() > 0 {
        assert(e[0].0 != k);
        assert forall|i: int| 0 <= i < e.drop_first().len() implies (
        #[trigger] e.drop_first()[i]).0 != k by {
            assert(e.drop_first()[i] == e[i + 1]);
        }
        lemma_insert_new_key(e.drop_first(), k, v);
        assert(seq![e[0]] + e.drop_first().push((k, v)) =~= e.push((k, v)));
    } else {
        assert(seq![(k, v)] =~= e.push((k, v)));
    }
}

pub proof fn lemma_remove_keeps_others(e: Entries, k: Seq<char>, k2: Seq<char>)
    requires
        k != k2,
    ensures
        entry_at(remove_entry(e, k), k2) == entry_at(e, k2),
    decreases e.len(),
{
    if e.len() > 0 {
        lemma_remove_keeps_others(e.drop_first(), k, k2);
        if e[0].0 != k {
            let a = seq![e[0]] + remove_entry(e.drop_first(), k);
            assert(a[0] == e[0]);
            assert(a.drop_first() =~= remove_entry(e.drop_first(), k));
        }
    }
}

pub proof fn lemma_insert_present(e: Entries, k: Seq<char>, v: TomlNode)
    requires
        entry_at(e, k) == Some(v),
    ensures
        insert_entry(e, k, v) == e,
    decreases e.len(),
{
    if e.len() > 0 {
        if e[0].0 == k {
            assert(e.update(0, (k, v)) =~= e);
        } else {
            lemma_insert_present(e.drop_first(), k, v);
            assert(seq![e[0]] + e.drop_first() =~= e);
        }
    }
}

pub proof fn lemma_insert_keeps_keys(e: Entries, k: Seq<char>, v: TomlNode)
    requires
        entry_at(e, k) is Some,
    ensures
        keys_of(insert_entry(e, k, v)) == keys_of(e),
    decreases e.len(),
{
    if e.len() > 0 {
        if e[0].0 == k {
            assert(keys_of(e.update(0, (k, v))) =~= keys_of(e));
        } else {
            lemma_insert_keeps_keys(e.drop_first(), k, v);
            assert(keys_of(seq![e[0]] + insert_entry(e.drop_first(), k, v)) =~= seq![e[0].0] + keys_of(
                insert_entry(e.drop_first(), k, v),
            ));
            assert(keys_of(e) =~= seq![e[0].0] + keys_of(e.drop_first()));
        }
    }
}

pub proof fn lemma_lookup_is_visible(e: Entries, k: Seq<char>)
    requires
        lookup(e, k) is Some,
    ensures
        keys_of(visible(e)).contains(k),
    decreases e.len(),
{
    if e.len() > 0 {
        if e[0].0 == k {
            assert(!(e[0].1 is Absent));
            assert(keys_of(visible(e))[0] == k);
        } else {
            lemma_lookup_is_visible(e.drop_first(), k);
            let rest = keys_of(visible(e.drop_first()));
            let j = choose|j: int| 0 <= j < rest.len() && rest[j] == k;
            if !(e[0].1 is Absent) {
                assert(keys_of(visible(e)) =~= seq![e[0].0] + rest);
                assert(keys_of(visible(e))[j + 1] == k);
            }
        }
    }
}

} // verus!
