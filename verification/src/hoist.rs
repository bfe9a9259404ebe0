//! Hoisting dependency versions into `workspace.dependencies`.

use vstd::prelude::*;
use crate::config::{HoistConfig, HoistStats};
use crate::deps::{
    ensure_workspace_deps, extract_version, has_path, is_workspace_dep, mutate_to_workspace,
};
use crate::model::{
    dep_has_path, dep_is_workspace, dep_version, deferred, insert_entry, keys_of, lookup, visible,
    with_workspace_deps, workspace_deps_fit, workspace_deps_of, Entries, TomlNode,
};
use crate::sorting::views;
use crate::text::same_text;
use crate::toml::{
    document_as_table, document_as_table_mut, document_entries, item_as_table, item_as_table_mut,
    item_node, table_contains_key, table_entries, table_get, table_get_mut, table_insert,
    root_is_table, table_keys, text_item,
};
use toml_edit::{DocumentMut, Table};

verus! {

/// A dependency declaration in a member manifest, as the hoist decision reads it.
pub struct DepUse {
    pub name: Seq<char>,
    pub local: bool,
    pub version: Option<Seq<char>>,
}

/// The declaration `name = node`.
pub open spec fn use_of(name: Seq<char>, node: TomlNode) -> DepUse {
    DepUse { name, local: dep_has_path(node), version: dep_version(node) }
}

/// The declarations among (visible) table entries that do not already defer
/// to the workspace, in order.
pub open spec fn entry_uses(v: Entries) -> Seq<DepUse>
    decreases v.len(),
{
    if v.len() == 0 {
        Seq::empty()
    } else {
        let rest = entry_uses(v.drop_last());
        if dep_is_workspace(v.last().1) {
            rest
        } else {
            rest.push(use_of(v.last().0, v.last().1))
        }
    }
}

/// The table under `key` in a root table, if it is a standard table.
pub open spec fn section_table(root: Entries, key: Seq<char>) -> Option<Entries> {
    match lookup(root, key) {
        Some(TomlNode::Table(t)) => Some(t),
        _ => None,
    }
}

/// The declarations of one manifest, section after section.
pub open spec fn section_uses(root: Entries, sections: Seq<Seq<char>>) -> Seq<DepUse>
    decreases sections.len(),
{
    if sections.len() == 0 {
        Seq::empty()
    } else {
        section_uses(root, sections.drop_last()) + match section_table(root, sections.last()) {
            Some(t) => entry_uses(visible(t)),
            None => Seq::empty(),
        }
    }
}

/// The declarations of all member manifests, manifest after manifest.
pub open spec fn member_uses(members: Seq<Entries>, sections: Seq<Seq<char>>) -> Seq<DepUse>
    decreases members.len(),
{
    if members.len() == 0 {
        Seq::empty()
    } else {
        member_uses(members.drop_last(), sections) + section_uses(members.last(), sections)
    }
}

/// The models of a sequence of documents.
pub open spec fn document_models(docs: Seq<DocumentMut>) -> Seq<Entries> {
    docs.map_values(|d: DocumentMut| document_entries(d))
}

/// An executable record of a declaration.
struct UseRecord {
    name: String,
    local: bool,
    version: Option<String>,
}

spec fn record_view(r: UseRecord) -> DepUse {
    DepUse {
        name: r.name@,
        local: r.local,
        version: match r.version {
            Some(v) => Some(v@),
            None => None,
        },
    }
}

spec fn records_view(v: Seq<UseRecord>) -> Seq<DepUse> {
    v.map_values(|r: UseRecord| record_view(r))
}

/// Appends the declarations of one table.
fn collect_table_uses(t: &Table, out: &mut Vec<UseRecord>)
    ensures
        records_view(final(out)@) == records_view(old(out)@) + entry_uses(visible(table_entries(*t))),
{
    let ghost v = visible(table_entries(*t));
    let keys = table_keys(t);
    assert(views(keys@) =~= keys_of(v));
    let ghost start = records_view(out@);
    let mut k: usize = 0;
    while k < keys.len()
        invariant
            k <= keys@.len(),
            keys@.len() == v.len(),
            views(keys@) == keys_of(v),
            forall|i: int|
                0 <= i < keys@.len() ==> lookup(table_entries(*t), #[trigger] keys@[i]@) == Some(
                    v[i].1,
                ),
            records_view(out@) == start + entry_uses(v.take(k as int)),
        decreases keys@.len() - k,
    {
        assert(v.take(k + 1).drop_last() =~= v.take(k as int));
        assert(keys_of(v)[k as int] == keys@[k as int]@);
        let item = table_get(t, keys[k].as_str()).unwrap();
        assert(item_node(*item) == v[k as int].1);
        if !is_workspace_dep(item) {
            let rec = UseRecord {
                name: keys[k].clone(),
                local: has_path(item),
                version: extract_version(item),
            };
            let ghost prev = out@;
            out.push(rec);
            assert(records_view(out@) =~= records_view(prev).push(record_view(rec)));
        }
        k += 1;
    }
    assert(v.take(keys@.len() as int) =~= v);
}

/// Appends the declarations of one manifest.
fn collect_member_uses(doc: &DocumentMut, sections: &Vec<String>, out: &mut Vec<UseRecord>)
    requires
        root_is_table(*doc),
    ensures
        records_view(final(out)@) == records_view(old(out)@) + section_uses(
            document_entries(*doc),
            views(sections@),
        ),
{
    let ghost root = document_entries(*doc);
    let ghost start = records_view(out@);
    let table = document_as_table(doc);
    let mut j: usize = 0;
    while j < sections.len()
        invariant
            j <= sections@.len(),
            table_entries(*table) == root,
            records_view(out@) == start + section_uses(root, views(sections@).take(j as int)),
        decreases sections@.len() - j,
    {
        let ghost before = records_view(out@);
        assert(views(sections@).take(j + 1).drop_last() =~= views(sections@).take(j as int));
        assert(views(sections@).take(j + 1).last() == sections@[j as int]@);
        match table_get(table, sections[j].as_str()) {
            Some(item) => match item_as_table(item) {
                Some(t) => {
                    collect_table_uses(t, out);
                },
                None => {},
            },
            None => {},
        }
        assert(records_view(out@) =~= start + section_uses(root, views(sections@).take(j + 1)));
        j += 1;
    }
    assert(views(sections@).take(sections@.len() as int) =~= views(sections@));
}

// ---------------------------------------------------------------- deciding per dependency

/// The names of the declared dependencies, each once, in order of first declaration.
pub open spec fn dep_names(uses: Seq<DepUse>) -> Seq<Seq<char>>
    decreases uses.len(),
{
    if uses.len() == 0 {
        Seq::empty()
    } else {
        let ns = dep_names(uses.drop_last());
        if ns.contains(uses.last().name) {
            ns
        } else {
            ns.push(uses.last().name)
        }
    }
}

/// Some declaration of `name` is local (has a `path`).
pub open spec fn any_local(uses: Seq<DepUse>, name: Seq<char>) -> bool
    decreases uses.len(),
{
    if uses.len() == 0 {
        false
    } else {
        any_local(uses.drop_last(), name) || (uses.last().name == name && uses.last().local)
    }
}

/// The version of the first declaration of `name` that has one.
pub open spec fn first_version(uses: Seq<DepUse>, name: Seq<char>) -> Option<Seq<char>>
    decreases uses.len(),
{
    if uses.len() == 0 {
        None
    } else {
        match first_version(uses.drop_last(), name) {
            Some(v) => Some(v),
            None => if uses.last().name == name {
                uses.last().version
            } else {
                None
            },
        }
    }
}

/// The version under which `name` is hoisted: none when any declaration of it
/// is local or none has a version, else the first version declared.
pub open spec fn hoisted_version(uses: Seq<DepUse>, name: Seq<char>) -> Option<Seq<char>> {
    if any_local(uses, name) {
        None
    } else {
        first_version(uses, name)
    }
}

/// `workspace.dependencies` after hoisting: each hoisted dependency that it
/// does not hold yet is added as `name = "version"`, in order of `names`.
pub open spec fn hoist_into(ws0: Entries, names: Seq<Seq<char>>, uses: Seq<DepUse>) -> Entries
    decreases names.len(),
{
    if names.len() == 0 {
        ws0
    } else {
        let w = hoist_into(ws0, names.drop_last(), uses);
        let n = names.last();
        match hoisted_version(uses, n) {
            Some(v) => if lookup(ws0, n) is None {
                insert_entry(w, n, TomlNode::Text(v))
            } else {
                w
            },
            None => w,
        }
    }
}

/// How many dependencies hoisting adds to `workspace.dependencies`.
pub open spec fn added_count(ws0: Entries, names: Seq<Seq<char>>, uses: Seq<DepUse>) -> nat
    decreases names.len(),
{
    if names.len() == 0 {
        0
    } else {
        added_count(ws0, names.drop_last(), uses) + if hoisted_version(uses, names.last()) is Some
            && lookup(ws0, names.last()) is None {
            1nat
        } else {
            0nat
        }
    }
}

/// How many dependencies hoisting skips (local, or without any version).
pub open spec fn skipped_count(names: Seq<Seq<char>>, uses: Seq<DepUse>) -> nat
    decreases names.len(),
{
    if names.len() == 0 {
        0
    } else {
        skipped_count(names.drop_last(), uses) + if hoisted_version(uses, names.last()) is None {
            1nat
        } else {
            0nat
        }
    }
}

pub proof fn lemma_dep_names_distinct(uses: Seq<DepUse>)
    ensures
        dep_names(uses).no_duplicates(),
        dep_names(uses).len() <= uses.len(),
        forall|i: int| 0 <= i < uses.len() ==> dep_names(uses).contains(#[trigger] uses[i].name),
    decreases uses.len(),
{
    if uses.len() > 0 {
        lemma_dep_names_distinct(uses.drop_last());
        let ns = dep_names(uses.drop_last());
        assert forall|i: int| 0 <= i < uses.len() implies dep_names(uses).contains(
            #[trigger] uses[i].name,
        ) by {
            if i < uses.len() - 1 {
                assert(uses.drop_last()[i] == uses[i]);
                assert(ns.contains(uses[i].name));
                let j = choose|j: int| 0 <= j < ns.len() && ns[j] == uses[i].name;
                if !ns.contains(uses.last().name) {
                    assert(ns.push(uses.last().name)[j] == ns[j]);
                }
            } else {
                if !ns.contains(uses.last().name) {
                    assert(ns.push(uses.last().name)[ns.len() as int] == uses.last().name);
                }
            }
        }
    }
}

pub proof fn lemma_hoist_into_lookup(ws0: Entries, names: Seq<Seq<char>>, uses: Seq<DepUse>, k: Seq<char>)
    requires
        !names.contains(k),
    ensures
        lookup(hoist_into(ws0, names, uses), k) == lookup(ws0, k),
    decreases names.len(),
{
    if names.len() > 0 {
        assert(!names.drop_last().contains(k)) by {
            if names.drop_last().contains(k) {
                let j = choose|j: int| 0 <= j < names.drop_last().len() && names.drop_last()[j] == k;
                assert(names[j] == k);
            }
        }
        lemma_hoist_into_lookup(ws0, names.drop_last(), uses, k);
        let w = hoist_into(ws0, names.drop_last(), uses);
        let n = names.last();
        assert(names[names.len() - 1] == n);
        assert(n != k);
        match hoisted_version(uses, n) {
            Some(v) => {
                crate::model::lemma_insert_then_lookup(w, n, TomlNode::Text(v), k);
            },
            None => {},
        }
    }
}

/// Whether `name` is among `names`.
fn contains_name(names: &Vec<String>, name: &str) -> (r: bool)
    ensures
        r == views(names@).contains(name@),
{
    let mut i: usize = 0;
    while i < names.len()
        invariant
            i <= names@.len(),
            forall|j: int| 0 <= j < i ==> names@[j]@ != name@,
        decreases names@.len() - i,
    {
        if same_text(names[i].as_str(), name) {
            assert(views(names@)[i as int] == name@);
            return true;
        }
        i += 1;
    }
    false
}

/// The dependency names, each once, in order of first declaration.
fn distinct_names(uses: &Vec<UseRecord>) -> (r: Vec<String>)
    ensures
        views(r@) == dep_names(records_view(uses@)),
{
    let mut names: Vec<String> = Vec::new();
    let mut i: usize = 0;
    while i < uses.len()
        invariant
            i <= uses@.len(),
            views(names@) == dep_names(records_view(uses@).take(i as int)),
        decreases uses@.len() - i,
    {
        let ghost us = records_view(uses@);
        assert(us.take(i + 1).drop_last() =~= us.take(i as int));
        assert(us.take(i + 1).last() == record_view(uses@[i as int]));
        if !contains_name(&names, uses[i].name.as_str()) {
            let ghost prev = names@;
            names.push(uses[i].name.clone());
            assert(views(names@) =~= views(prev).push(uses@[i as int].name@));
        }
        i += 1;
    }
    assert(records_view(uses@).take(uses@.len() as int) =~= records_view(uses@));
    names
}

/// The version under which `name` is hoisted, if it is.
fn decide_version(uses: &Vec<UseRecord>, name: &str) -> (r: Option<String>)
    ensures
        r is Some <==> hoisted_version(records_view(uses@), name@) is Some,
        r matches Some(v) ==> hoisted_version(records_view(uses@), name@) == Some(v@),
{
    let ghost us = records_view(uses@);
    let mut local = false;
    let mut found: Option<String> = None;
    let mut i: usize = 0;
    while i < uses.len()
        invariant
            i <= uses@.len(),
            us == records_view(uses@),
            local == any_local(us.take(i as int), name@),
            found is Some <==> first_version(us.take(i as int), name@) is Some,
            found matches Some(v) ==> first_version(us.take(i as int), name@) == Some(v@),
        decreases uses@.len() - i,
    {
        assert(us.take(i + 1).drop_last() =~= us.take(i as int));
        assert(us.take(i + 1).last() == record_view(uses@[i as int]));
        if same_text(uses[i].name.as_str(), name) {
            if uses[i].local {
                local = true;
            }
            if found.is_none() {
                found = match &uses[i].version {
                    Some(v) => Some(v.clone()),
                    None => None,
                };
            }
        }
        i += 1;
    }
    assert(us.take(uses@.len() as int) =~= us);
    if local {
        None
    } else {
        found
    }
}

/// Adds each hoisted dependency missing from `workspace.dependencies`;
/// returns how many were added and how many were skipped.
fn hoist_names(ws: &mut Table, names: &Vec<String>, uses: &Vec<UseRecord>) -> (r: (usize, usize))
    requires
        views(names@).no_duplicates(),
    ensures
        table_entries(*final(ws)) == hoist_into(table_entries(*old(ws)), views(names@), records_view(uses@)),
        r.0 == added_count(table_entries(*old(ws)), views(names@), records_view(uses@)),
        r.1 == skipped_count(views(names@), records_view(uses@)),
{
    let ghost ws0 = table_entries(*ws);
    let ghost us = records_view(uses@);
    let ghost ns = views(names@);
    let mut added: usize = 0;
    let mut skipped: usize = 0;
    let mut j: usize = 0;
    while j < names.len()
        invariant
            j <= names@.len(),
            ns == views(names@),
            us == records_view(uses@),
            ns.no_duplicates(),
            table_entries(*ws) == hoist_into(ws0, ns.take(j as int), us),
            added == added_count(ws0, ns.take(j as int), us),
            skipped == skipped_count(ns.take(j as int), us),
            added + skipped <= j,
        decreases names@.len() - j,
    {
        let ghost n = ns[j as int];
        assert(ns.take(j + 1).drop_last() =~= ns.take(j as int));
        assert(ns.take(j + 1).last() == n);
        assert(!ns.take(j as int).contains(n)) by {
            if ns.take(j as int).contains(n) {
                let m = choose|m: int| 0 <= m < j && ns.take(j as int)[m] == n;
                assert(ns[m] == ns[j as int]);
            }
        }
        proof {
            lemma_hoist_into_lookup(ws0, ns.take(j as int), us, n);
        }
        match decide_version(uses, names[j].as_str()) {
            Some(v) => {
                if !table_contains_key(ws, names[j].as_str()) {
                    table_insert(ws, names[j].as_str(), text_item(v.as_str()));
                    added += 1;
                }
            },
            None => {
                skipped += 1;
            },
        }
        j += 1;
    }
    assert(ns.take(names@.len() as int) =~= ns);
    (added, skipped)
}

// ---------------------------------------------------------------- rewriting members

/// A declaration that can defer to the workspace: not already a workspace
/// dependency, not local, and with a version.
pub open spec fn qualifies(n: TomlNode) -> bool {
    !dep_is_workspace(n) && !dep_has_path(n) && dep_version(n) is Some
}

/// The names that some declaration gives a local `path`: hoisting skips them
/// and leaves every declaration of them alone.
pub open spec fn local_names(uses: Seq<DepUse>) -> Set<Seq<char>> {
    Set::new(|n: Seq<char>| any_local(uses, n))
}

/// Whether hoisting rewrites the declaration `k = n` to `workspace = true`:
/// it qualifies and its name is not skipped as local.
pub open spec fn rewrites(k: Seq<char>, n: TomlNode, local: Set<Seq<char>>) -> bool {
    qualifies(n) && !local.contains(k)
}

/// What a lookup of key `k` gives after rewriting.
pub open spec fn defer_lookup(o: Option<TomlNode>, k: Seq<char>, local: Set<Seq<char>>) -> Option<
    TomlNode,
> {
    match o {
        Some(n) => if rewrites(k, n, local) {
            Some(deferred(n))
        } else {
            Some(n)
        },
        None => None,
    }
}

/// `after` is the dependency table `before` with every declaration that is
/// rewritten deferring to the workspace, keys and their order unchanged.
pub open spec fn deferred_table(before: Entries, after: Entries, local: Set<Seq<char>>) -> bool {
    &&& keys_of(after) == keys_of(before)
    &&& forall|k: Seq<char>| #[trigger] lookup(after, k) == defer_lookup(lookup(before, k), k, local)
}

/// `after` is the manifest `before` with the dependency tables of the listed
/// sections rewritten, all else unchanged.
pub open spec fn deferred_manifest(
    before: Entries,
    after: Entries,
    sections: Seq<Seq<char>>,
    local: Set<Seq<char>>,
) -> bool {
    &&& keys_of(after) == keys_of(before)
    &&& forall|k: Seq<char>|
        #![trigger lookup(after, k)]
        if sections.contains(k) && section_table(before, k) is Some {
            match lookup(after, k) {
                Some(TomlNode::Table(t2)) => deferred_table(
                    section_table(before, k).unwrap(),
                    t2,
                    local,
                ),
                _ => false,
            }
        } else {
            lookup(after, k) == lookup(before, k)
        }
}

/// How many entries are rewritten.
pub open spec fn qualifying_count(v: Entries, local: Set<Seq<char>>) -> nat
    decreases v.len(),
{
    if v.len() == 0 {
        0
    } else {
        qualifying_count(v.drop_last(), local) + if rewrites(v.last().0, v.last().1, local) {
            1nat
        } else {
            0nat
        }
    }
}

/// How many declarations of one manifest hoisting rewrites: those rewritten in
/// each listed section, a section listed twice counting once.
pub open spec fn manifest_update_count(
    root: Entries,
    sections: Seq<Seq<char>>,
    local: Set<Seq<char>>,
) -> nat
    decreases sections.len(),
{
    if sections.len() == 0 {
        0
    } else {
        manifest_update_count(root, sections.drop_last(), local) + if sections.drop_last().contains(
            sections.last(),
        ) {
            0nat
        } else {
            match section_table(root, sections.last()) {
                Some(t) => qualifying_count(visible(t), local),
                None => 0nat,
            }
        }
    }
}

/// How many declarations of all members hoisting rewrites.
pub open spec fn update_count(
    members: Seq<Entries>,
    sections: Seq<Seq<char>>,
    local: Set<Seq<char>>,
) -> nat
    decreases members.len(),
{
    if members.len() == 0 {
        0
    } else {
        update_count(members.drop_last(), sections, local) + manifest_update_count(
            members.last(),
            sections,
            local,
        )
    }
}

proof fn lemma_qualifying_count_bounded(v: Entries, local: Set<Seq<char>>)
    ensures
        qualifying_count(v, local) <= entry_uses(v).len(),
    decreases v.len(),
{
    if v.len() > 0 {
        lemma_qualifying_count_bounded(v.drop_last(), local);
    }
}

proof fn lemma_manifest_count_bounded(root: Entries, sections: Seq<Seq<char>>, local: Set<Seq<char>>)
    ensures
        manifest_update_count(root, sections, local) <= section_uses(root, sections).len(),
    decreases sections.len(),
{
    if sections.len() > 0 {
        lemma_manifest_count_bounded(root, sections.drop_last(), local);
        match section_table(root, sections.last()) {
            Some(t) => lemma_qualifying_count_bounded(visible(t), local),
            None => {},
        }
    }
}

proof fn lemma_update_count_bounded(
    members: Seq<Entries>,
    sections: Seq<Seq<char>>,
    local: Set<Seq<char>>,
)
    ensures
        update_count(members, sections, local) <= member_uses(members, sections).len(),
    decreases members.len(),
{
    if members.len() > 0 {
        lemma_update_count_bounded(members.drop_last(), sections, local);
        lemma_manifest_count_bounded(members.last(), sections, local);
    }
}

proof fn lemma_manifest_count_prefix(
    root: Entries,
    sections: Seq<Seq<char>>,
    local: Set<Seq<char>>,
    j: int,
)
    requires
        0 <= j <= sections.len(),
    ensures
        manifest_update_count(root, sections.take(j), local) <= manifest_update_count(
            root,
            sections,
            local,
        ),
    decreases sections.len(),
{
    if j < sections.len() {
        assert(sections.drop_last().take(j) =~= sections.take(j));
        lemma_manifest_count_prefix(root, sections.drop_last(), local, j);
    } else {
        assert(sections.take(j) =~= sections);
    }
}

proof fn lemma_update_count_prefix(
    members: Seq<Entries>,
    sections: Seq<Seq<char>>,
    local: Set<Seq<char>>,
    i: int,
)
    requires
        0 <= i <= members.len(),
    ensures
        update_count(members.take(i), sections, local) <= update_count(members, sections, local),
    decreases members.len(),
{
    if i < members.len() {
        assert(members.drop_last().take(i) =~= members.take(i));
        lemma_update_count_prefix(members.drop_last(), sections, local, i);
    } else {
        assert(members.take(i) =~= members);
    }
}

/// The names that some declaration gives a local `path`.
fn collect_local_names(uses: &Vec<UseRecord>) -> (r: Vec<String>)
    ensures
        views(r@).to_set() == local_names(records_view(uses@)),
{
    let ghost us = records_view(uses@);
    let mut names: Vec<String> = Vec::new();
    let mut i: usize = 0;
    while i < uses.len()
        invariant
            i <= uses@.len(),
            us == records_view(uses@),
            forall|n: Seq<char>| views(names@).contains(n) <==> any_local(us.take(i as int), n),
        decreases uses@.len() - i,
    {
        assert(us.take(i + 1).drop_last() =~= us.take(i as int));
        assert(us.take(i + 1).last() == record_view(uses@[i as int]));
        if uses[i].local {
            let ghost prev = names@;
            names.push(uses[i].name.clone());
            assert(views(names@) =~= views(prev).push(uses@[i as int].name@));
            assert forall|n: Seq<char>| views(names@).contains(n) <==> any_local(
                us.take(i + 1),
                n,
            ) by {
                if views(names@).contains(n) && n != uses@[i as int].name@ {
                    let m = choose|m: int| 0 <= m < views(names@).len() && views(names@)[m] == n;
                    assert(m < views(prev).len());
                    assert(views(prev)[m] == n);
                }
                if views(prev).contains(n) {
                    let m = choose|m: int| 0 <= m < views(prev).len() && views(prev)[m] == n;
                    assert(views(names@)[m] == n);
                }
                if n == uses@[i as int].name@ {
                    assert(views(names@)[views(prev).len() as int] == n);
                }
            }
        }
        i += 1;
    }
    assert(us.take(uses@.len() as int) =~= us);
    assert(views(names@).to_set() =~= local_names(us));
    names
}

/// Rewrites each qualifying declaration of a dependency table whose name is
/// not among `locals`; returns how many.
fn defer_table(t: &mut Table, locals: &Vec<String>) -> (count: usize)
    ensures
        deferred_table(table_entries(*old(t)), table_entries(*final(t)), views(locals@).to_set()),
        count == qualifying_count(visible(table_entries(*old(t))), views(locals@).to_set()),
{
    let ghost local = views(locals@).to_set();
    let ghost t0 = table_entries(*t);
    let ghost v = visible(t0);
    let keys = table_keys(t);
    assert(views(keys@) =~= keys_of(v));
    let mut count: usize = 0;
    let mut k: usize = 0;
    while k < keys.len()
        invariant
            k <= keys@.len(),
            keys@.len() == v.len(),
            views(keys@) == keys_of(v),
            views(keys@).no_duplicates(),
            forall|i: int| 0 <= i < keys@.len() ==> lookup(t0, #[trigger] keys@[i]@) == Some(v[i].1),
            keys_of(table_entries(*t)) == keys_of(t0),
            forall|key: Seq<char>|
                #[trigger] lookup(table_entries(*t), key) == if views(keys@).take(k as int).contains(
                    key,
                ) {
                    defer_lookup(lookup(t0, key), key, local)
                } else {
                    lookup(t0, key)
                },
            local == views(locals@).to_set(),
            count == qualifying_count(v.take(k as int), local),
            count <= k,
        decreases keys@.len() - k,
    {
        let ghost cur = table_entries(*t);
        let ghost key = keys@[k as int]@;
        assert(v.take(k + 1).drop_last() =~= v.take(k as int));
        assert(!views(keys@).take(k as int).contains(key)) by {
            if views(keys@).take(k as int).contains(key) {
                let m = choose|m: int| 0 <= m < k && views(keys@).take(k as int)[m] == key;
                assert(views(keys@)[m] == views(keys@)[k as int]);
            }
        }
        assert(lookup(cur, key) == Some(v[k as int].1));
        let item = table_get_mut(t, keys[k].as_str()).unwrap();
        let ghost n0 = item_node(*item);
        if !is_workspace_dep(item) && !has_path(item) && extract_version(item).is_some()
            && !contains_name(locals, keys[k].as_str()) {
            mutate_to_workspace(item);
            count += 1;
        }
        proof {
            assert(views(keys@)[k as int] == key);
            assert(keys_of(v)[k as int] == v[k as int].0);
            assert(v[k as int].0 == key);
            let n1 = if rewrites(key, n0, local) { deferred(n0) } else { n0 };
            crate::model::lemma_insert_keeps_keys(cur, key, n1);
            assert forall|key2: Seq<char>| #[trigger] lookup(insert_entry(cur, key, n1), key2) == if views(
                keys@,
            ).take(k + 1).contains(key2) {
                defer_lookup(lookup(t0, key2), key2, local)
            } else {
                lookup(t0, key2)
            } by {
                crate::model::lemma_insert_then_lookup(cur, key, n1, key2);
                assert(views(keys@).take(k + 1)[k as int] == key);
                if key2 != key {
                    let s1 = views(keys@).take(k + 1);
                    let s0 = views(keys@).take(k as int);
                    assert(s1.contains(key2) == s0.contains(key2)) by {
                        if s1.contains(key2) {
                            let m = choose|m: int| 0 <= m < s1.len() && #[trigger] s1[m] == key2;
                            assert(s0[m] == key2);
                        }
                        if s0.contains(key2) {
                            let m = choose|m: int| 0 <= m < s0.len() && #[trigger] s0[m] == key2;
                            assert(s1[m] == key2);
                        }
                    }
                }
            }
        }
        k += 1;
    }
    proof {
        assert(v.take(keys@.len() as int) =~= v);
        assert(views(keys@).take(keys@.len() as int) =~= views(keys@));
        assert forall|key: Seq<char>| #[trigger] lookup(table_entries(*t), key) == defer_lookup(
            lookup(t0, key),
            key,
            local,
        ) by {
            if lookup(t0, key) is Some {
                crate::model::lemma_lookup_is_visible(t0, key);
            }
        }
    }
    count
}

/// Whether `sections[j]` already occurs among the sections before it.
fn listed_before(sections: &Vec<String>, j: usize) -> (r: bool)
    requires
        j < sections@.len(),
    ensures
        r == views(sections@).take(j as int).contains(sections@[j as int]@),
{
    let ghost prev = views(sections@).take(j as int);
    let mut i: usize = 0;
    while i < j
        invariant
            i <= j,
            j < sections@.len(),
            prev == views(sections@).take(j as int),
            forall|m: int| 0 <= m < i ==> prev[m] != sections@[j as int]@,
        decreases j - i,
    {
        if same_text(sections[i].as_str(), sections[j].as_str()) {
            assert(prev[i as int] == sections@[j as int]@);
            return true;
        }
        i += 1;
    }
    false
}

/// Rewrites the qualifying declarations of one member manifest; returns how many.
fn defer_manifest(doc: &mut DocumentMut, sections: &Vec<String>, locals: &Vec<String>) -> (count:
    usize)
    requires
        root_is_table(*old(doc)),
        manifest_update_count(
            document_entries(*old(doc)),
            views(sections@),
            views(locals@).to_set(),
        ) <= usize::MAX,
    ensures
        root_is_table(*final(doc)),
        deferred_manifest(
            document_entries(*old(doc)),
            document_entries(*final(doc)),
            views(sections@),
            views(locals@).to_set(),
        ),
        count == manifest_update_count(
            document_entries(*old(doc)),
            views(sections@),
            views(locals@).to_set(),
        ),
{
    let ghost local = views(locals@).to_set();
    let ghost root0 = document_entries(*doc);
    let ghost secs = views(sections@);
    let root = document_as_table_mut(doc);
    let mut count: usize = 0;
    let mut j: usize = 0;
    while j < sections.len()
        invariant
            j <= sections@.len(),
            secs == views(sections@),
            local == views(locals@).to_set(),
            manifest_update_count(root0, secs, local) <= usize::MAX,
            keys_of(table_entries(*root)) == keys_of(root0),
            forall|k: Seq<char>|
                #![trigger lookup(table_entries(*root), k)]
                if secs.take(j as int).contains(k) && section_table(root0, k) is Some {
                    match lookup(table_entries(*root), k) {
                        Some(TomlNode::Table(t2)) => deferred_table(
                            section_table(root0, k).unwrap(),
                            t2,
                            local,
                        ),
                        _ => false,
                    }
                } else {
                    lookup(table_entries(*root), k) == lookup(root0, k)
                },
            count == manifest_update_count(root0, secs.take(j as int), local),
        decreases sections@.len() - j,
    {
        let ghost cur = table_entries(*root);
        let ghost s = secs[j as int];
        let ghost s1 = secs.take(j + 1);
        let ghost s0 = secs.take(j as int);
        assert(s1.drop_last() =~= s0);
        assert(s1.last() == s);
        assert(forall|k: Seq<char>| k != s ==> (s1.contains(k) == s0.contains(k))) by {
            assert forall|k: Seq<char>| k != s implies (s1.contains(k) == s0.contains(k)) by {
                if s1.contains(k) {
                    let m = choose|m: int| 0 <= m < s1.len() && #[trigger] s1[m] == k;
                    assert(s0[m] == k);
                }
                if s0.contains(k) {
                    let m = choose|m: int| 0 <= m < s0.len() && #[trigger] s0[m] == k;
                    assert(s1[m] == k);
                }
            }
        }
        assert(s1[j as int] == s);
        proof {
            lemma_manifest_count_prefix(root0, secs, local, j + 1);
        }
        if !listed_before(sections, j) {
            assert(!s0.contains(s));
            assert(lookup(cur, s) == lookup(root0, s));
            match table_get_mut(root, sections[j].as_str()) {
                Some(item) => {
                    let ghost n0 = item_node(*item);
                    match item_as_table_mut(item) {
                        Some(t) => {
                            let ghost t0 = table_entries(*t);
                            let c = defer_table(t, locals);
                            count = count + c;
                            proof {
                                let n1 = TomlNode::Table(table_entries(*final(t)));
                                let e1 = insert_entry(cur, s, n1);
                                crate::model::lemma_insert_keeps_keys(cur, s, n1);
                                assert forall|k: Seq<char>|
                                    #![trigger lookup(e1, k)]
                                    if s1.contains(k) && section_table(root0, k) is Some {
                                        match lookup(e1, k) {
                                            Some(TomlNode::Table(t2)) => deferred_table(
                                                section_table(root0, k).unwrap(),
                                                t2,
                                                local,
                                            ),
                                            _ => false,
                                        }
                                    } else {
                                        lookup(e1, k) == lookup(root0, k)
                                    } by {
                                    crate::model::lemma_insert_then_lookup(cur, s, n1, k);
                                }
                            }
                        },
                        None => {
                            proof {
                                crate::model::lemma_insert_present(cur, s, n0);
                                assert(section_table(root0, s) is None);
                            }
                        },
                    }
                },
                None => {
                    assert(section_table(root0, s) is None);
                },
            }
        } else {
            assert(s0.contains(s));
        }
        j += 1;
    }
    assert(secs.take(sections@.len() as int) =~= secs);
    count
}

/// The outcome of hoisting.
pub struct HoistOutcome {
    /// How many dependencies were added, rewritten and skipped.
    pub stats: HoistStats,
    /// For each member manifest, whether any of its declarations was rewritten
    /// (the manifests that need writing back).
    pub members_changed: Vec<bool>,
}

/// The declarations hoisting reads from the member manifests.
pub open spec fn hoist_uses(members: Seq<DocumentMut>, config: HoistConfig) -> Seq<DepUse> {
    member_uses(document_models(members), views(config.sections@))
}

/// Hoists dependency versions from the member manifests to the root manifest:
///
/// 1. collects every declaration in the configured sections of the members
///    that is not already `workspace = true`;
/// 2. for each dependency name, in order of first declaration: skips it when
///    any declaration is local or none has a version, else adds
///    `name = "first version"` to `workspace.dependencies` unless it is there;
/// 3. rewrites every member declaration that is not local, has a version and
///    names a dependency that no declaration gives a `path`, to
///    `workspace = true`, keeping its other keys; declarations of skipped
///    local dependencies are left alone.
///
/// The root manifest gets a `[workspace.dependencies]` table in any case.
pub fn hoist(root: &mut DocumentMut, members: &mut Vec<DocumentMut>, config: &HoistConfig) -> (r:
    HoistOutcome)
    requires
        root_is_table(*old(root)),
        forall|i: int| 0 <= i < old(members)@.len() ==> root_is_table(#[trigger] old(members)@[i]),
        workspace_deps_fit(document_entries(*old(root))),
    ensures
        root_is_table(*final(root)),
        forall|i: int| 0 <= i < final(members)@.len() ==> root_is_table(#[trigger] final(members)@[i]),
        document_entries(*final(root)) == with_workspace_deps(
            document_entries(*old(root)),
            hoist_into(
                workspace_deps_of(document_entries(*old(root))),
                dep_names(hoist_uses(old(members)@, *config)),
                hoist_uses(old(members)@, *config),
            ),
        ),
        r.stats.added == added_count(
            workspace_deps_of(document_entries(*old(root))),
            dep_names(hoist_uses(old(members)@, *config)),
            hoist_uses(old(members)@, *config),
        ),
        r.stats.skipped == skipped_count(
            dep_names(hoist_uses(old(members)@, *config)),
            hoist_uses(old(members)@, *config),
        ),
        r.stats.updated == update_count(
            document_models(old(members)@),
            views(config.sections@),
            local_names(hoist_uses(old(members)@, *config)),
        ),
        final(members)@.len() == old(members)@.len(),
        forall|i: int|
            0 <= i < old(members)@.len() ==> deferred_manifest(
                document_entries(#[trigger] old(members)@[i]),
                document_entries(final(members)@[i]),
                views(config.sections@),
                local_names(hoist_uses(old(members)@, *config)),
            ),
        r.members_changed@.len() == old(members)@.len(),
        forall|i: int|
            0 <= i < old(members)@.len() ==> #[trigger] r.members_changed@[i] == (
            manifest_update_count(
                document_entries(old(members)@[i]),
                views(config.sections@),
                local_names(hoist_uses(old(members)@, *config)),
            ) > 0),
{
    let ghost models = document_models(members@);
    let ghost secs = views(config.sections@);
    // Collect the declarations of all members.
    let mut uses: Vec<UseRecord> = Vec::new();
    let mut i: usize = 0;
    while i < members.len()
        invariant
            i <= members@.len(),
            models == document_models(members@),
            secs == views(config.sections@),
            forall|m: int| 0 <= m < members@.len() ==> root_is_table(#[trigger] members@[m]),
            records_view(uses@) == member_uses(models.take(i as int), secs),
        decreases members@.len() - i,
    {
        assert(models.take(i + 1).drop_last() =~= models.take(i as int));
        assert(models.take(i + 1).last() == document_entries(members@[i as int]));
        collect_member_uses(&members[i], &config.sections, &mut uses);
        i += 1;
    }
    assert(models.take(members@.len() as int) =~= models);
    let ghost us = records_view(uses@);
    // Decide per dependency and extend `workspace.dependencies`.
    let names = distinct_names(&uses);
    proof {
        lemma_dep_names_distinct(us);
    }
    let ws_deps = ensure_workspace_deps(root);
    let (added, skipped) = hoist_names(ws_deps, &names, &uses);
    let locals = collect_local_names(&uses);
    let ghost local = local_names(us);
    // Rewrite the member declarations.
    proof {
        lemma_update_count_bounded(models, secs, local);
    }
    let ulen = uses.len();
    let mut updated: usize = 0;
    let mut changed: Vec<bool> = Vec::new();
    let n = members.len();
    let mut i: usize = 0;
    while i < n
        invariant
            i <= n,
            n == members@.len(),
            n == models.len(),
            secs == views(config.sections@),
            local == views(locals@).to_set(),
            update_count(models, secs, local) <= us.len(),
            us.len() == ulen,
            forall|m: int| i <= m < n ==> document_entries(#[trigger] members@[m]) == models[m],
            forall|m: int| 0 <= m < n ==> root_is_table(#[trigger] members@[m]),
            forall|m: int|
                0 <= m < i ==> deferred_manifest(
                    #[trigger] models[m],
                    document_entries(members@[m]),
                    secs,
                    local,
                ),
            updated == update_count(models.take(i as int), secs, local),
            changed@.len() == i,
            forall|m: int|
                0 <= m < i ==> #[trigger] changed@[m] == (manifest_update_count(models[m], secs, local)
                    > 0),
        decreases n - i,
    {
        assert(models.take(i + 1).drop_last() =~= models.take(i as int));
        assert(models.take(i + 1).last() == models[i as int]);
        proof {
            lemma_update_count_prefix(models, secs, local, i + 1);
            assert(update_count(models.take(i + 1), secs, local) == update_count(
                models.take(i as int),
                secs,
                local,
            ) + manifest_update_count(models[i as int], secs, local));
        }
        assert(document_entries(members@[i as int]) == models[i as int]);
        let c = defer_manifest(&mut members[i], &config.sections, &locals);
        updated = updated + c;
        changed.push(c > 0);
        i += 1;
    }
    assert(models.take(n as int) =~= models);
    assert forall|m: int| 0 <= m < n implies deferred_manifest(
        document_entries(#[trigger] old(members)@[m]),
        document_entries(members@[m]),
        secs,
        local,
    ) by {
        assert(models[m] == document_entries(old(members)@[m]));
    }
    HoistOutcome { stats: HoistStats { added, updated, skipped }, members_changed: changed }
}

/// Which manifests a hoist run writes back, each after a backup.
pub struct WritePlan {
    /// Whether the root manifest is written.
    pub root: bool,
    /// For each member manifest, whether it is written.
    pub members: Vec<bool>,
}

/// Plans the writes after hoisting: nothing in a dry run; otherwise the root
/// manifest when a dependency was added to it, and each member manifest whose
/// declarations were rewritten.
pub fn plan_writes(outcome: &HoistOutcome, dry_run: bool) -> (r: WritePlan)
    ensures
        r.root == (!dry_run && outcome.stats.added > 0),
        r.members@.len() == outcome.members_changed@.len(),
        forall|i: int|
            0 <= i < r.members@.len() ==> #[trigger] r.members@[i] == (!dry_run
                && outcome.members_changed@[i]),
{
    let mut members: Vec<bool> = Vec::new();
    let mut i: usize = 0;
    while i < outcome.members_changed.len()
        invariant
            i <= outcome.members_changed@.len(),
            members@.len() == i,
            forall|m: int|
                0 <= m < i ==> #[trigger] members@[m] == (!dry_run && outcome.members_changed@[m]),
        decreases outcome.members_changed@.len() - i,
    {
        members.push(!dry_run && outcome.members_changed[i]);
        i += 1;
    }
    WritePlan { root: !dry_run && outcome.stats.added > 0, members }
}

/// Whether `workspace` and `workspace.dependencies`, where present, are
/// standard tables, as hoisting into the document requires.
pub fn check_workspace_layout(doc: &DocumentMut) -> (r: bool)
    requires
        root_is_table(*doc),
    ensures
        r == workspace_deps_fit(document_entries(*doc)),
{
    let root = document_as_table(doc);
    match table_get(root, "workspace") {
        None => true,
        Some(wi) => match item_as_table(wi) {
            None => false,
            Some(ws) => match table_get(ws, "dependencies") {
                None => true,
                Some(di) => item_as_table(di).is_some(),
            },
        },
    }
}

} // verus!
