//! Reading and rewriting single dependency specifications.

use vstd::prelude::*;
use crate::model::{
    dep_has_path, dep_is_workspace, dep_version, deferred, insert_entry, lemma_insert_then_lookup,
    lemma_insert_twice, lookup, with_workspace_deps, workspace_deps_fit, workspace_deps_of, workspace_of,
    TomlNode,
};
use crate::toml::{
    document_as_table_mut, document_entries, flag_item, root_is_table, flag_value, inline_get, inline_insert,
    inline_remove, inline_table_item, item_as_bool, item_as_inline_table,
    item_as_inline_table_mut, item_as_str, item_as_table, item_as_table_mut, item_node,
    new_inline_table, new_table_item, table_contains_key, table_entries, table_get,
    table_get_mut, table_insert, table_remove, value_as_bool, value_as_str,
};
use toml_edit::{DocumentMut, Item, Table};

verus! {

/// The version of a dependency: the string of `name = "1.0"`, or the
/// `version` key of a table form. A dependency with a `path` has none.
pub fn extract_version(item: &Item) -> (r: Option<String>)
    ensures
        r is Some <==> dep_version(item_node(*item)) is Some,
        r matches Some(v) ==> dep_version(item_node(*item)) == Some(v@),
{
    if let Some(s) = item_as_str(item) {
        return Some(s.to_string());
    }
    if let Some(t) = item_as_inline_table(item) {
        if inline_get(t, "path").is_some() {
            return None;
        }
        return match inline_get(t, "version") {
            Some(v) => match value_as_str(v) {
                Some(s) => Some(s.to_string()),
                None => None,
            },
            None => None,
        };
    }
    if let Some(t) = item_as_table(item) {
        if table_get(t, "path").is_some() {
            return None;
        }
        return match table_get(t, "version") {
            Some(v) => match item_as_str(v) {
                Some(s) => Some(s.to_string()),
                None => None,
            },
            None => None,
        };
    }
    None
}

/// Whether a dependency already reads `workspace = true`.
pub fn is_workspace_dep(item: &Item) -> (r: bool)
    ensures
        r == dep_is_workspace(item_node(*item)),
{
    if let Some(t) = item_as_inline_table(item) {
        return match inline_get(t, "workspace") {
            Some(v) => match value_as_bool(v) {
                Some(b) => b,
                None => false,
            },
            None => false,
        };
    }
    if let Some(t) = item_as_table(item) {
        return match table_get(t, "workspace") {
            Some(v) => match item_as_bool(v) {
                Some(b) => b,
                None => false,
            },
            None => false,
        };
    }
    false
}

/// Whether a dependency is local, i.e. declares a `path`.
pub fn has_path(item: &Item) -> (r: bool)
    ensures
        r == dep_has_path(item_node(*item)),
{
    if let Some(t) = item_as_inline_table(item) {
        return inline_get(t, "path").is_some();
    }
    if let Some(t) = item_as_table(item) {
        return table_get(t, "path").is_some();
    }
    false
}

/// Rewrites a dependency to defer to the workspace: `name = "1.0"` becomes
/// `name = { workspace = true }`; a table form loses its `version` and gains
/// `workspace = true`, keeping its other keys (features, optional, ...).
/// Any other item is left exactly as it was.
pub fn mutate_to_workspace(item: &mut Item)
    ensures
        item_node(*final(item)) == deferred(item_node(*old(item))),
        !(item_node(*old(item)) is Text || item_node(*old(item)) is Inline || item_node(
            *old(item),
        ) is Table) ==> *final(item) == *old(item),
{
    if item_as_str(item).is_some() {
        let mut t = new_inline_table();
        inline_insert(&mut t, "workspace", flag_value(true));
        *item = inline_table_item(t);
        return;
    }
    match item_as_inline_table_mut(item) {
        Some(t) => {
            inline_remove(t, "version");
            inline_insert(t, "workspace", flag_value(true));
            return;
        },
        None => {},
    }
    match item_as_table_mut(item) {
        Some(t) => {
            table_remove(t, "version");
            table_insert(t, "workspace", flag_item(true));
        },
        None => {},
    }
}

/// Makes sure the document has a `[workspace.dependencies]` table and hands it out.
/// Missing tables are created at the end of their parent.
pub fn ensure_workspace_deps(doc: &mut DocumentMut) -> (r: &mut Table)
    requires
        root_is_table(*old(doc)),
        workspace_deps_fit(document_entries(*old(doc))),
    ensures
        root_is_table(*final(doc)),
        table_entries(*r) == workspace_deps_of(document_entries(*old(doc))),
        document_entries(*final(doc)) == with_workspace_deps(
            document_entries(*old(doc)),
            table_entries(*final(r)),
        ),
        forall|k: Seq<char>|
            k != "workspace"@ ==> #[trigger] lookup(document_entries(*final(doc)), k) == lookup(
                document_entries(*old(doc)),
                k,
            ),
        (lookup(document_entries(*final(doc)), "workspace"@) matches Some(TomlNode::Table(ws2))
            && forall|k: Seq<char>|
            k != "dependencies"@ ==> #[trigger] lookup(ws2, k) == match lookup(
                document_entries(*old(doc)),
                "workspace"@,
            ) {
                Some(TomlNode::Table(ws)) => lookup(ws, k),
                _ => None,
            }),
{
    let ghost root0 = document_entries(*doc);
    let root = document_as_table_mut(doc);
    if !table_contains_key(root, "workspace") {
        table_insert(root, "workspace", new_table_item());
        proof {
            lemma_insert_then_lookup(root0, "workspace"@, TomlNode::Table(Seq::empty()), "workspace"@);
        }
    }
    let ghost root1 = table_entries(*root);
    let ws_item = table_get_mut(root, "workspace").unwrap();
    let ghost ws0 = workspace_of(root0);
    assert(item_node(*ws_item) == TomlNode::Table(ws0));
    let ws = item_as_table_mut(ws_item).unwrap();
    if !table_contains_key(ws, "dependencies") {
        table_insert(ws, "dependencies", new_table_item());
        proof {
            lemma_insert_then_lookup(ws0, "dependencies"@, TomlNode::Table(Seq::empty()), "dependencies"@);
        }
    }
    let deps_item = table_get_mut(ws, "dependencies").unwrap();
    let deps = item_as_table_mut(deps_item).unwrap();
    proof {
        lemma_insert_twice(root0, "workspace"@, TomlNode::Table(Seq::empty()), TomlNode::Table(
            insert_entry(ws0, "dependencies"@, TomlNode::Table(table_entries(*final(deps)))),
        ));
        lemma_insert_twice(ws0, "dependencies"@, TomlNode::Table(Seq::empty()), TomlNode::Table(
            table_entries(*final(deps)),
        ));
        let fin = table_entries(*final(deps));
        crate::laws::law_workspace_deps_keep_others(root0, fin, "workspace"@);
        assert forall|k: Seq<char>| k != "workspace"@ implies #[trigger] lookup(
            with_workspace_deps(root0, fin),
            k,
        ) == lookup(root0, k) by {
            crate::laws::law_workspace_deps_keep_others(root0, fin, k);
        }
        let ws2 = match lookup(with_workspace_deps(root0, fin), "workspace"@) {
            Some(TomlNode::Table(w)) => w,
            _ => Seq::empty(),
        };
        assert forall|k: Seq<char>| k != "dependencies"@ implies #[trigger] lookup(ws2, k) == match lookup(
            root0,
            "workspace"@,
        ) {
            Some(TomlNode::Table(ws)) => lookup(ws, k),
            _ => None,
        } by {
            crate::laws::law_workspace_deps_keep_others(root0, fin, k);
        }
    }
    deps
}

} // verus!
