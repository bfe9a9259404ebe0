//! Properties of the library that span its operations.

use vstd::prelude::*;
use crate::config::HoistConfig;
use crate::text::{has_prefix, text_le};
use crate::hoist::{
    added_count, any_local, defer_lookup, deferred_manifest, deferred_table, dep_names,
    entry_uses, first_version, hoist_into, hoisted_version, lemma_dep_names_distinct,
    local_names, manifest_update_count, member_uses, qualifies, qualifying_count, rewrites,
    section_table, section_uses, update_count, use_of, DepUse,
};
use crate::model::{
    defer_entries, deferred, dep_has_path, distinct_keys, dep_is_workspace, dep_version, entry_at, insert_entry,
    keys_of, lemma_insert_present, lemma_insert_then_lookup, lemma_remove_keeps_others, lookup,
    nested_keys_distinct,
    remove_entry, visible, with_workspace_deps, workspace_deps_fit, workspace_deps_of,
    workspace_of, Entries, TomlNode,
};
use crate::sorting::{
    arranged, key_order, lemma_arranged_is_sorted_keys, lemma_arranged_unique,
    lemma_key_order_total, sort_sections, sort_workspace_table,
    sorted_document, sorted_entries, sorted_keys, sorted_members, table_after_sort, texts_of,
};

verus! {

proof fn lemma_remove_then_entry(e: Entries, k: Seq<char>)
    ensures
        entry_at(remove_entry(e, k), k) is None,
    decreases e.len(),
{
    if e.len() > 0 {
        lemma_remove_then_entry(e.drop_first(), k);
        if e[0].0 != k {
            let a = seq![e[0]] + remove_entry(e.drop_first(), k);
            assert(a[0] == e[0]);
            assert(a.drop_first() =~= remove_entry(e.drop_first(), k));
        }
    }
}

proof fn lemma_remove_absent(e: Entries, k: Seq<char>)
    requires
        entry_at(e, k) is None,
    ensures
        remove_entry(e, k) == e,
    decreases e.len(),
{
    if e.len() > 0 {
        lemma_remove_absent(e.drop_first(), k);
        assert(seq![e[0]] + e.drop_first() =~= e);
    }
}

/// A dependency with a `path` has no version to hoist.
pub proof fn law_local_dependency_has_no_version(n: TomlNode)
    requires
        dep_has_path(n),
    ensures
        dep_version(n) is None,
{
}

/// Rewriting a table-like dependency to defer to the workspace removes its
/// `version`, sets `workspace = true`, and keeps every other key as it was
/// (features, optional, ...).
pub proof fn law_defer_keeps_other_keys(e: Entries, k: Seq<char>)
    ensures
        lookup(defer_entries(e), "version"@) is None,
        lookup(defer_entries(e), "workspace"@) == Some(TomlNode::Flag(true)),
        k != "version"@ && k != "workspace"@ ==> lookup(defer_entries(e), k) == lookup(e, k),
{
    reveal_strlit("version");
    reveal_strlit("workspace");
    assert("version"@.len() != "workspace"@.len());
    let r = remove_entry(e, "version"@);
    lemma_remove_then_entry(e, "version"@);
    lemma_insert_then_lookup(r, "workspace"@, TomlNode::Flag(true), "version"@);
    lemma_insert_then_lookup(r, "workspace"@, TomlNode::Flag(true), "workspace"@);
    lemma_insert_then_lookup(r, "workspace"@, TomlNode::Flag(true), k);
    if k != "version"@ {
        lemma_remove_keeps_others(e, "version"@, k);
    }
}

/// A string, inline-table or table dependency reads `workspace = true` once
/// rewritten, and no longer qualifies for rewriting.
pub proof fn law_deferred_reads_workspace(n: TomlNode)
    requires
        n is Text || n is Inline || n is Table,
    ensures
        dep_is_workspace(deferred(n)),
        !qualifies(deferred(n)),
{
    reveal_strlit("workspace");
    match n {
        TomlNode::Text(_) => {
            let e = seq![("workspace"@, TomlNode::Flag(true))];
            assert(e[0].0 == "workspace"@);
        },
        TomlNode::Inline(e) => {
            law_defer_keeps_other_keys(e, "workspace"@);
        },
        TomlNode::Table(e) => {
            law_defer_keeps_other_keys(e, "workspace"@);
        },
        _ => {},
    }
}

/// Rewriting twice is rewriting once.
pub proof fn law_deferred_idempotent(n: TomlNode)
    ensures
        deferred(deferred(n)) == deferred(n),
{
    reveal_strlit("version");
    reveal_strlit("workspace");
    match n {
        TomlNode::Text(_) => {
            let e = seq![("workspace"@, TomlNode::Flag(true))];
            assert(e[0].0 == "workspace"@);
            assert(e.drop_first() =~= Seq::<(Seq<char>, TomlNode)>::empty());
            assert(entry_at(e.drop_first(), "version"@) is None);
            assert(entry_at(e, "version"@) is None);
            lemma_remove_absent(e, "version"@);
            lemma_insert_present(e, "workspace"@, TomlNode::Flag(true));
        },
        TomlNode::Inline(e) => {
            lemma_defer_entries_idempotent(e);
        },
        TomlNode::Table(e) => {
            lemma_defer_entries_idempotent(e);
        },
        _ => {},
    }
}

proof fn lemma_defer_entries_idempotent(e: Entries)
    ensures
        defer_entries(defer_entries(e)) == defer_entries(e),
{
    reveal_strlit("version");
    reveal_strlit("workspace");
    assert("version"@.len() != "workspace"@.len());
    let r = remove_entry(e, "version"@);
    let x = defer_entries(e);
    lemma_remove_then_entry(e, "version"@);
    lemma_insert_then_lookup(r, "workspace"@, TomlNode::Flag(true), "version"@);
    lemma_insert_then_lookup(r, "workspace"@, TomlNode::Flag(true), "workspace"@);
    lemma_remove_absent(x, "version"@);
    lemma_insert_present(x, "workspace"@, TomlNode::Flag(true));
}

/// Sorting keeps exactly the keys of the non-empty entries, each with its
/// item, and puts them in order: keys with the priority prefix first, each
/// group in string order.
pub proof fn law_sorted_entries_are_sorted_permutation(e: Entries, prefix: Option<Seq<char>>)
    ensures
        keys_of(sorted_entries(e, prefix)).to_multiset() == keys_of(visible(e)).to_multiset(),
        arranged(keys_of(sorted_entries(e, prefix)), prefix),
        forall|i: int|
            0 <= i < sorted_entries(e, prefix).len() ==> #[trigger] sorted_entries(e, prefix)[i].1
                == lookup(e, sorted_entries(e, prefix)[i].0).unwrap(),
{
    let keys = keys_of(visible(e));
    let s = sorted_keys(keys, prefix);
    lemma_key_order_total(prefix);
    keys.lemma_sort_by_ensures(key_order(prefix));
    assert(keys_of(sorted_entries(e, prefix)) =~= s);
    assert forall|i: int, j: int| 0 <= i < j < s.len() implies crate::sorting::key_before(
        s[i],
        s[j],
        prefix,
    ) by {
        assert(key_order(prefix)(s[i], s[j]));
    }
}

proof fn lemma_visible_of_present(e: Entries)
    requires
        forall|i: int| 0 <= i < e.len() ==> !((#[trigger] e[i]).1 is Absent),
    ensures
        visible(e) == e,
    decreases e.len(),
{
    if e.len() > 0 {
        assert(!(e[0].1 is Absent));
        lemma_visible_of_present(e.drop_first());
        assert(seq![e[0]] + e.drop_first() =~= e);
    }
}

proof fn lemma_lookup_uniform(e: Entries, k: Seq<char>, v: TomlNode, i: int)
    requires
        0 <= i < e.len(),
        e[i].0 == k,
        !(v is Absent),
        forall|j: int| 0 <= j < e.len() && (#[trigger] e[j]).0 == k ==> e[j].1 == v,
    ensures
        lookup(e, k) == Some(v),
    decreases i,
{
    if e[0].0 != k {
        assert forall|j: int| 0 <= j < e.drop_first().len() && (#[trigger] e.drop_first()[j]).0 == k
            implies e.drop_first()[j].1 == v by {
            assert(e.drop_first()[j] == e[j + 1]);
        }
        lemma_lookup_uniform(e.drop_first(), k, v, i - 1);
    }
}

/// Sorting a sorted table changes nothing.
pub proof fn law_sort_idempotent(e: Entries, prefix: Option<Seq<char>>)
    requires
        forall|i: int| 0 <= i < visible(e).len() ==> lookup(e, (#[trigger] visible(e)[i]).0) is Some,
    ensures
        sorted_entries(sorted_entries(e, prefix), prefix) == sorted_entries(e, prefix),
{
    let s = sorted_entries(e, prefix);
    law_sorted_entries_are_sorted_permutation(e, prefix);
    let keys = keys_of(visible(e));
    let sk = sorted_keys(keys, prefix);
    lemma_key_order_total(prefix);
    keys.lemma_sort_by_ensures(key_order(prefix));
    assert forall|i: int| 0 <= i < s.len() implies !((#[trigger] s[i]).1 is Absent) by {
        assert(keys.to_multiset().count(sk[i]) > 0) by {
            broadcast use vstd::seq_lib::group_to_multiset_ensures;

            assert(sk.contains(sk[i]));
        }
        broadcast use vstd::seq_lib::group_to_multiset_ensures;

        assert(keys.contains(sk[i]));
        let j = choose|j: int| 0 <= j < keys.len() && keys[j] == sk[i];
        assert(lookup(e, visible(e)[j].0) is Some);
    }
    lemma_visible_of_present(s);
    assert(keys_of(s) =~= sk);
    sk.lemma_sort_by_ensures(key_order(prefix));
    let ss = sorted_keys(sk, prefix);
    assert forall|i: int, j: int| 0 <= i < j < ss.len() implies crate::sorting::key_before(
        ss[i],
        ss[j],
        prefix,
    ) by {
        assert(key_order(prefix)(ss[i], ss[j]));
    }
    lemma_arranged_unique(ss, sk, prefix);
    assert forall|i: int| 0 <= i < s.len() implies lookup(s, (#[trigger] s[i]).0) == Some(s[i].1) by {
        lemma_lookup_uniform(s, s[i].0, s[i].1, i);
    }
    assert(sorted_entries(s, prefix) =~= s);
}

/// Hoisting never changes a dependency that `workspace.dependencies` already holds.
pub proof fn law_hoist_keeps_existing(ws0: Entries, names: Seq<Seq<char>>, uses: Seq<DepUse>, k: Seq<char>)
    requires
        lookup(ws0, k) is Some,
    ensures
        lookup(hoist_into(ws0, names, uses), k) == lookup(ws0, k),
    decreases names.len(),
{
    if names.len() > 0 {
        law_hoist_keeps_existing(ws0, names.drop_last(), uses, k);
        let w = hoist_into(ws0, names.drop_last(), uses);
        let n = names.last();
        match hoisted_version(uses, n) {
            Some(v) => {
                lemma_insert_then_lookup(w, n, TomlNode::Text(v), k);
            },
            None => {},
        }
    }
}

/// Hoisting never adds a dependency that some member declares with a `path`.
pub proof fn law_hoist_skips_local(ws0: Entries, names: Seq<Seq<char>>, uses: Seq<DepUse>, k: Seq<char>)
    requires
        any_local(uses, k),
    ensures
        lookup(hoist_into(ws0, names, uses), k) == lookup(ws0, k),
    decreases names.len(),
{
    if names.len() > 0 {
        law_hoist_skips_local(ws0, names.drop_last(), uses, k);
        let w = hoist_into(ws0, names.drop_last(), uses);
        let n = names.last();
        match hoisted_version(uses, n) {
            Some(v) => {
                assert(n != k);
                lemma_insert_then_lookup(w, n, TomlNode::Text(v), k);
            },
            None => {},
        }
    }
}

/// A dependency that is hoisted and was missing reads, in
/// `workspace.dependencies`, the first version its members declare.
pub proof fn law_hoist_adds_first_version(
    ws0: Entries,
    names: Seq<Seq<char>>,
    uses: Seq<DepUse>,
    k: Seq<char>,
    v: Seq<char>,
)
    requires
        names.no_duplicates(),
        names.contains(k),
        hoisted_version(uses, k) == Some(v),
        lookup(ws0, k) is None,
    ensures
        lookup(hoist_into(ws0, names, uses), k) == Some(TomlNode::Text(v)),
    decreases names.len(),
{
    let n = names.last();
    let w = hoist_into(ws0, names.drop_last(), uses);
    if n == k {
        lemma_insert_then_lookup(w, k, TomlNode::Text(v), k);
    } else {
        assert(names.drop_last().contains(k)) by {
            let j = choose|j: int| 0 <= j < names.len() && names[j] == k;
            assert(j != names.len() - 1);
            assert(names.drop_last()[j] == k);
        }
        assert(names.drop_last().no_duplicates());
        law_hoist_adds_first_version(ws0, names.drop_last(), uses, k, v);
        match hoisted_version(uses, n) {
            Some(v2) => {
                lemma_insert_then_lookup(w, n, TomlNode::Text(v2), k);
            },
            None => {},
        }
    }
}

/// Once `workspace.dependencies` is set, reading it back gives what was set,
/// and the document keeps a layout that hoisting accepts.
pub proof fn law_workspace_deps_read_back(root: Entries, deps: Entries)
    ensures
        workspace_deps_of(with_workspace_deps(root, deps)) == deps,
        workspace_deps_fit(with_workspace_deps(root, deps)),
{
    let ws = insert_entry(workspace_of(root), "dependencies"@, TomlNode::Table(deps));
    lemma_insert_then_lookup(root, "workspace"@, TomlNode::Table(ws), "workspace"@);
    lemma_insert_then_lookup(workspace_of(root), "dependencies"@, TomlNode::Table(deps), "dependencies"@);
}

/// The sorted `members` array holds exactly the strings it held, in string order.
pub proof fn law_sorted_members_are_sorted(slots: Seq<TomlNode>)
    ensures
        texts_of(sorted_members(slots)) == sorted_keys(texts_of(slots), None),
        arranged(sorted_keys(texts_of(slots), None), None),
        sorted_keys(texts_of(slots), None).to_multiset() == texts_of(slots).to_multiset(),
{
    let t = texts_of(slots);
    let s = sorted_keys(t, None);
    lemma_key_order_total(None);
    t.lemma_sort_by_ensures(key_order(None));
    assert forall|i: int, j: int| 0 <= i < j < s.len() implies crate::sorting::key_before(
        s[i],
        s[j],
        None,
    ) by {
        assert(key_order(None)(s[i], s[j]));
    }
    lemma_texts_of_texts(s);
}

proof fn lemma_texts_of_texts(s: Seq<Seq<char>>)
    ensures
        texts_of(s.map_values(|x: Seq<char>| TomlNode::Text(x))) == s,
    decreases s.len(),
{
    if s.len() > 0 {
        lemma_texts_of_texts(s.drop_last());
        assert(s.map_values(|x: Seq<char>| TomlNode::Text(x)).drop_last() =~= s.drop_last().map_values(
            |x: Seq<char>| TomlNode::Text(x),
        ));
        assert(s.drop_last().push(s.last()) =~= s);
    }
}

proof fn lemma_first_version_found(uses: Seq<DepUse>, name: Seq<char>, i: int)
    requires
        0 <= i < uses.len(),
        uses[i].name == name,
        uses[i].version is Some,
    ensures
        first_version(uses, name) is Some,
    decreases uses.len(),
{
    if i < uses.len() - 1 {
        assert(uses.drop_last()[i] == uses[i]);
        lemma_first_version_found(uses.drop_last(), name, i);
    }
}

/// After hoisting, a dependency that some member declares with a version and
/// none declares with a `path` is in `workspace.dependencies`: these are the
/// declarations rewritten to `workspace = true`, so each of them resolves.
pub proof fn law_hoisted_dependencies_resolve(ws0: Entries, uses: Seq<DepUse>, i: int)
    requires
        0 <= i < uses.len(),
        !uses[i].local,
        uses[i].version is Some,
        !any_local(uses, uses[i].name),
    ensures
        lookup(hoist_into(ws0, dep_names(uses), uses), uses[i].name) is Some,
{
    let n = uses[i].name;
    lemma_dep_names_distinct(uses);
    lemma_first_version_found(uses, n, i);
    if lookup(ws0, n) is Some {
        law_hoist_keeps_existing(ws0, dep_names(uses), uses, n);
    } else {
        law_hoist_adds_first_version(ws0, dep_names(uses), uses, n, first_version(uses, n).unwrap());
    }
}

proof fn lemma_visible_from_entries(e: Entries, j: int)
    requires
        0 <= j < visible(e).len(),
    ensures
        exists|p: int| 0 <= p < e.len() && e[p] == visible(e)[j] && !(e[p].1 is Absent),
    decreases e.len(),
{
    if e.len() > 0 {
        if e[0].1 is Absent {
            lemma_visible_from_entries(e.drop_first(), j);
            let p = choose|p: int|
                0 <= p < e.drop_first().len() && e.drop_first()[p] == visible(e.drop_first())[j] && !(
                e.drop_first()[p].1 is Absent);
            assert(e[p + 1] == e.drop_first()[p]);
        } else if j == 0 {
            assert(e[0] == visible(e)[0]);
        } else {
            assert(visible(e) == seq![e[0]] + visible(e.drop_first()));
            assert(visible(e)[j] == visible(e.drop_first())[j - 1]);
            lemma_visible_from_entries(e.drop_first(), j - 1);
            let p = choose|p: int|
                0 <= p < e.drop_first().len() && e.drop_first()[p] == visible(e.drop_first())[j - 1]
                    && !(e.drop_first()[p].1 is Absent);
            assert(e[p + 1] == e.drop_first()[p]);
        }
    }
}

/// Every visible entry of a rewritten table either no longer qualifies for
/// rewriting or names a skipped local dependency.
proof fn lemma_rewritten_entries_settled(t: Entries, t2: Entries, local: Set<Seq<char>>, j: int)
    requires
        distinct_keys(t),
        deferred_table(t, t2, local),
        0 <= j < visible(t2).len(),
    ensures
        !qualifies(visible(t2)[j].1) || local.contains(visible(t2)[j].0),
{
    lemma_visible_from_entries(t2, j);
    let p = choose|p: int| 0 <= p < t2.len() && t2[p] == visible(t2)[j] && !(t2[p].1 is Absent);
    let k = t2[p].0;
    assert forall|q: int| 0 <= q < t2.len() && (#[trigger] t2[q]).0 == k implies t2[q].1 == t2[p].1 by {
        assert(keys_of(t2).len() == t2.len());
        assert(keys_of(t).len() == t.len());
        assert(keys_of(t2)[q] == t2[q].0);
        assert(keys_of(t2)[p] == t2[p].0);
        assert(keys_of(t)[q] == t[q].0);
        assert(keys_of(t)[p] == t[p].0);
        assert(t[q].0 == t[p].0);
        if q != p {
            if q < p {
                assert(t[q].0 != t[p].0);
            } else {
                assert(t[p].0 != t[q].0);
            }
        }
    }
    lemma_lookup_uniform(t2, k, t2[p].1, p);
    let n = t2[p].1;
    match lookup(t, k) {
        Some(m) => {
            if rewrites(k, m, local) {
                assert(n == deferred(m));
                law_deferred_reads_workspace(m);
            }
        },
        None => {},
    }
}

proof fn lemma_settled_count_zero(v: Entries, local: Set<Seq<char>>)
    requires
        forall|j: int| 0 <= j < v.len() ==> !qualifies(#[trigger] v[j].1) || local.contains(v[j].0),
    ensures
        qualifying_count(v, local) == 0,
        forall|j: int|
            0 <= j < entry_uses(v).len() ==> (#[trigger] entry_uses(v)[j]).local
                || entry_uses(v)[j].version is None || local.contains(entry_uses(v)[j].name),
    decreases v.len(),
{
    if v.len() > 0 {
        assert forall|j: int| 0 <= j < v.drop_last().len() implies !qualifies(
            #[trigger] v.drop_last()[j].1,
        ) || local.contains(v.drop_last()[j].0) by {
            assert(v.drop_last()[j] == v[j]);
        }
        lemma_settled_count_zero(v.drop_last(), local);
        assert(!qualifies(v[v.len() - 1].1) || local.contains(v[v.len() - 1].0));
    }
}

/// A member manifest after rewriting: none of its declarations is rewritten
/// again, against any set of local names that keeps the first one's.
proof fn lemma_manifest_settled(
    before: Entries,
    after: Entries,
    sections: Seq<Seq<char>>,
    secs: Seq<Seq<char>>,
    local: Set<Seq<char>>,
    local2: Set<Seq<char>>,
)
    requires
        deferred_manifest(before, after, sections, local),
        forall|n: Seq<char>| local.contains(n) ==> #[trigger] local2.contains(n),
        forall|k: Seq<char>|
            #[trigger] section_table(before, k) is Some ==> distinct_keys(section_table(before, k).unwrap()),
        forall|j: int| 0 <= j < secs.len() ==> sections.contains(#[trigger] secs[j]),
    ensures
        manifest_update_count(after, secs, local2) == 0,
        forall|j: int|
            0 <= j < section_uses(after, secs).len() ==> (#[trigger] section_uses(after, secs)[j]).local
                || section_uses(after, secs)[j].version is None || local2.contains(
                section_uses(after, secs)[j].name,
            ),
    decreases secs.len(),
{
    if secs.len() > 0 {
        assert forall|j: int| 0 <= j < secs.drop_last().len() implies sections.contains(
            #[trigger] secs.drop_last()[j],
        ) by {
            assert(secs.drop_last()[j] == secs[j]);
        }
        lemma_manifest_settled(before, after, sections, secs.drop_last(), local, local2);
        let s = secs.last();
        assert(sections.contains(secs[secs.len() - 1]));
        let rest = section_uses(after, secs.drop_last());
        match section_table(before, s) {
            Some(t) => {
                assert(lookup(after, s) matches Some(TomlNode::Table(t2)) && deferred_table(
                    t,
                    t2,
                    local,
                ));
                let t2 = section_table(after, s).unwrap();
                assert forall|j: int| 0 <= j < visible(t2).len() implies !qualifies(
                    #[trigger] visible(t2)[j].1,
                ) || local2.contains(visible(t2)[j].0) by {
                    lemma_rewritten_entries_settled(t, t2, local, j);
                }
                lemma_settled_count_zero(visible(t2), local2);
                let add = entry_uses(visible(t2));
                assert forall|j: int| 0 <= j < section_uses(after, secs).len() implies (
                #[trigger] section_uses(after, secs)[j]).local || section_uses(after, secs)[j].version
                    is None || local2.contains(section_uses(after, secs)[j].name) by {
                    if j >= rest.len() {
                        assert(section_uses(after, secs)[j] == add[j - rest.len()]);
                    } else {
                        assert(section_uses(after, secs)[j] == rest[j]);
                    }
                }
            },
            None => {
                assert(lookup(after, s) == lookup(before, s));
                assert(section_uses(after, secs) =~= rest);
            },
        }
    }
}

proof fn lemma_members_settled(
    before: Seq<Entries>,
    after: Seq<Entries>,
    sections: Seq<Seq<char>>,
    local: Set<Seq<char>>,
    local2: Set<Seq<char>>,
)
    requires
        after.len() == before.len(),
        forall|i: int|
            0 <= i < before.len() ==> deferred_manifest(#[trigger] before[i], after[i], sections, local),
        forall|n: Seq<char>| local.contains(n) ==> #[trigger] local2.contains(n),
        forall|i: int, k: Seq<char>|
            0 <= i < before.len() && #[trigger] section_table(before[i], k) is Some ==> distinct_keys(
                section_table(before[i], k).unwrap(),
            ),
    ensures
        update_count(after, sections, local2) == 0,
        forall|j: int|
            0 <= j < member_uses(after, sections).len() ==> (#[trigger] member_uses(
                after,
                sections,
            )[j]).local || member_uses(after, sections)[j].version is None || local2.contains(
                member_uses(after, sections)[j].name,
            ),
    decreases before.len(),
{
    if before.len() > 0 {
        let n = before.len() - 1;
        assert forall|i: int| 0 <= i < before.drop_last().len() implies deferred_manifest(
            #[trigger] before.drop_last()[i],
            after.drop_last()[i],
            sections,
            local,
        ) by {
            assert(before.drop_last()[i] == before[i]);
            assert(after.drop_last()[i] == after[i]);
        }
        assert forall|i: int, k: Seq<char>|
            0 <= i < before.drop_last().len() && #[trigger] section_table(
                before.drop_last()[i],
                k,
            ) is Some implies distinct_keys(section_table(before.drop_last()[i], k).unwrap()) by {
            assert(before.drop_last()[i] == before[i]);
        }
        lemma_members_settled(before.drop_last(), after.drop_last(), sections, local, local2);
        assert forall|k: Seq<char>| #[trigger] section_table(before[n], k) is Some implies distinct_keys(
            section_table(before[n], k).unwrap(),
        ) by {}
        assert forall|j: int| 0 <= j < sections.len() implies sections.contains(
            #[trigger] sections[j],
        ) by {}
        lemma_manifest_settled(before[n], after[n], sections, sections, local, local2);
        assert(after.last() == after[n]);
        let rest = member_uses(after.drop_last(), sections);
        let add = section_uses(after.last(), sections);
        assert forall|j: int| 0 <= j < member_uses(after, sections).len() implies (
        #[trigger] member_uses(after, sections)[j]).local || member_uses(after, sections)[j].version
            is None || local2.contains(member_uses(after, sections)[j].name) by {
            if j >= rest.len() {
                assert(member_uses(after, sections)[j] == add[j - rest.len()]);
            } else {
                assert(member_uses(after, sections)[j] == rest[j]);
            }
        }
    }
}

proof fn lemma_any_local_concat(a: Seq<DepUse>, b: Seq<DepUse>, k: Seq<char>)
    ensures
        any_local(a + b, k) == (any_local(a, k) || any_local(b, k)),
    decreases b.len(),
{
    if b.len() == 0 {
        assert(a + b =~= a);
    } else {
        lemma_any_local_concat(a, b.drop_last(), k);
        assert((a + b).drop_last() =~= a + b.drop_last());
        assert((a + b).last() == b.last());
    }
}

proof fn lemma_local_use_found(v: Entries, k: Seq<char>)
    requires
        any_local(entry_uses(v), k),
    ensures
        exists|j: int|
            0 <= j < v.len() && (#[trigger] v[j]).0 == k && dep_has_path(v[j].1) && !dep_is_workspace(
                v[j].1,
            ),
    decreases v.len(),
{
    let rest = entry_uses(v.drop_last());
    let last = v.len() - 1;
    assert(v[last] == v.last());
    if dep_is_workspace(v.last().1) {
        lemma_local_use_found(v.drop_last(), k);
        let j = choose|j: int|
            0 <= j < v.drop_last().len() && (#[trigger] v.drop_last()[j]).0 == k && dep_has_path(
                v.drop_last()[j].1,
            ) && !dep_is_workspace(v.drop_last()[j].1);
        assert(v[j] == v.drop_last()[j]);
    } else {
        let u = use_of(v.last().0, v.last().1);
        assert(rest.push(u).drop_last() =~= rest);
        if any_local(rest, k) {
            lemma_local_use_found(v.drop_last(), k);
            let j = choose|j: int|
                0 <= j < v.drop_last().len() && (#[trigger] v.drop_last()[j]).0 == k && dep_has_path(
                    v.drop_last()[j].1,
                ) && !dep_is_workspace(v.drop_last()[j].1);
            assert(v[j] == v.drop_last()[j]);
        }
    }
}

proof fn lemma_local_use_counts(v: Entries, j: int, k: Seq<char>)
    requires
        0 <= j < v.len(),
        v[j].0 == k,
        dep_has_path(v[j].1),
        !dep_is_workspace(v[j].1),
    ensures
        any_local(entry_uses(v), k),
    decreases v.len(),
{
    let rest = entry_uses(v.drop_last());
    let u = use_of(v.last().0, v.last().1);
    assert(rest.push(u).drop_last() =~= rest);
    if j < v.len() - 1 {
        assert(v.drop_last()[j] == v[j]);
        lemma_local_use_counts(v.drop_last(), j, k);
    } else {
        assert(v.last() == v[j]);
    }
}

proof fn lemma_same_keys_distinct(t: Entries, t2: Entries)
    requires
        distinct_keys(t),
        keys_of(t2) == keys_of(t),
    ensures
        distinct_keys(t2),
{
    assert(keys_of(t2).len() == t2.len());
    assert(keys_of(t).len() == t.len());
    assert forall|i: int, j: int| 0 <= i < j < t2.len() implies t2[i].0 != t2[j].0 by {
        assert(keys_of(t2)[i] == t2[i].0);
        assert(keys_of(t2)[j] == t2[j].0);
        assert(keys_of(t)[i] == t[i].0);
        assert(keys_of(t)[j] == t[j].0);
    }
}

/// A local declaration stays in a rewritten table.
proof fn lemma_table_keeps_local(t: Entries, t2: Entries, local: Set<Seq<char>>, k: Seq<char>)
    requires
        distinct_keys(t),
        deferred_table(t, t2, local),
        any_local(entry_uses(visible(t)), k),
    ensures
        any_local(entry_uses(visible(t2)), k),
{
    let vt = visible(t);
    lemma_local_use_found(vt, k);
    let j = choose|j: int|
        0 <= j < vt.len() && (#[trigger] vt[j]).0 == k && dep_has_path(vt[j].1) && !dep_is_workspace(
            vt[j].1,
        );
    let n = vt[j].1;
    lemma_visible_entries(t);
    assert(lookup(t, k) == Some(n));
    assert(lookup(t2, k) == Some(n));
    lemma_same_keys_distinct(t, t2);
    crate::model::lemma_lookup_is_visible(t2, k);
    let v2 = visible(t2);
    let j2 = choose|j2: int| 0 <= j2 < keys_of(v2).len() && keys_of(v2)[j2] == k;
    assert(v2[j2].0 == k);
    lemma_visible_entries(t2);
    assert(lookup(t2, v2[j2].0) == Some(v2[j2].1));
    lemma_local_use_counts(v2, j2, k);
}

proof fn lemma_manifest_keeps_local(
    before: Entries,
    after: Entries,
    sections: Seq<Seq<char>>,
    secs: Seq<Seq<char>>,
    local: Set<Seq<char>>,
    k: Seq<char>,
)
    requires
        deferred_manifest(before, after, sections, local),
        forall|k2: Seq<char>|
            #[trigger] section_table(before, k2) is Some ==> distinct_keys(
                section_table(before, k2).unwrap(),
            ),
        forall|j: int| 0 <= j < secs.len() ==> sections.contains(#[trigger] secs[j]),
        any_local(section_uses(before, secs), k),
    ensures
        any_local(section_uses(after, secs), k),
    decreases secs.len(),
{
    let rest = secs.drop_last();
    let s = secs.last();
    let pb = match section_table(before, s) {
        Some(t) => entry_uses(visible(t)),
        None => Seq::<DepUse>::empty(),
    };
    let pa = match section_table(after, s) {
        Some(t) => entry_uses(visible(t)),
        None => Seq::<DepUse>::empty(),
    };
    lemma_any_local_concat(section_uses(before, rest), pb, k);
    lemma_any_local_concat(section_uses(after, rest), pa, k);
    assert forall|j: int| 0 <= j < rest.len() implies sections.contains(#[trigger] rest[j]) by {
        assert(rest[j] == secs[j]);
    }
    if any_local(section_uses(before, rest), k) {
        lemma_manifest_keeps_local(before, after, sections, rest, local, k);
    } else {
        assert(sections.contains(secs[secs.len() - 1]));
        match section_table(before, s) {
            Some(t) => {
                assert(lookup(after, s) matches Some(TomlNode::Table(t2)) && deferred_table(
                    t,
                    t2,
                    local,
                ));
                let t2 = section_table(after, s).unwrap();
                lemma_table_keeps_local(t, t2, local, k);
            },
            None => {},
        }
    }
}

proof fn lemma_members_keep_local(
    before: Seq<Entries>,
    after: Seq<Entries>,
    sections: Seq<Seq<char>>,
    local: Set<Seq<char>>,
    k: Seq<char>,
)
    requires
        after.len() == before.len(),
        forall|i: int|
            0 <= i < before.len() ==> deferred_manifest(#[trigger] before[i], after[i], sections, local),
        forall|i: int, k2: Seq<char>|
            0 <= i < before.len() && #[trigger] section_table(before[i], k2) is Some ==> distinct_keys(
                section_table(before[i], k2).unwrap(),
            ),
        any_local(member_uses(before, sections), k),
    ensures
        any_local(member_uses(after, sections), k),
    decreases before.len(),
{
    let n = before.len() - 1;
    lemma_any_local_concat(member_uses(before.drop_last(), sections), section_uses(before.last(), sections), k);
    lemma_any_local_concat(member_uses(after.drop_last(), sections), section_uses(after.last(), sections), k);
    if any_local(member_uses(before.drop_last(), sections), k) {
        assert forall|i: int| 0 <= i < before.drop_last().len() implies deferred_manifest(
            #[trigger] before.drop_last()[i],
            after.drop_last()[i],
            sections,
            local,
        ) by {
            assert(before.drop_last()[i] == before[i]);
            assert(after.drop_last()[i] == after[i]);
        }
        assert forall|i: int, k2: Seq<char>|
            0 <= i < before.drop_last().len() && #[trigger] section_table(
                before.drop_last()[i],
                k2,
            ) is Some implies distinct_keys(section_table(before.drop_last()[i], k2).unwrap()) by {
            assert(before.drop_last()[i] == before[i]);
        }
        lemma_members_keep_local(before.drop_last(), after.drop_last(), sections, local, k);
    } else {
        assert(before.last() == before[n]);
        assert(after.last() == after[n]);
        assert forall|k2: Seq<char>| #[trigger] section_table(before[n], k2) is Some implies distinct_keys(
            section_table(before[n], k2).unwrap(),
        ) by {}
        assert forall|j: int| 0 <= j < sections.len() implies sections.contains(
            #[trigger] sections[j],
        ) by {}
        lemma_manifest_keeps_local(before[n], after[n], sections, sections, local, k);
    }
}

proof fn lemma_not_local_use(uses: Seq<DepUse>, name: Seq<char>, j: int)
    requires
        !any_local(uses, name),
        0 <= j < uses.len(),
        uses[j].name == name,
    ensures
        !uses[j].local,
    decreases uses.len(),
{
    if j < uses.len() - 1 {
        assert(uses.drop_last()[j] == uses[j]);
        lemma_not_local_use(uses.drop_last(), name, j);
    }
}

proof fn lemma_first_version_witness(uses: Seq<DepUse>, name: Seq<char>)
    requires
        first_version(uses, name) is Some,
    ensures
        exists|j: int| 0 <= j < uses.len() && (#[trigger] uses[j]).name == name && uses[j].version is Some,
    decreases uses.len(),
{
    if first_version(uses.drop_last(), name) is Some {
        lemma_first_version_witness(uses.drop_last(), name);
        let j = choose|j: int|
            0 <= j < uses.drop_last().len() && (#[trigger] uses.drop_last()[j]).name == name
                && uses.drop_last()[j].version is Some;
        assert(uses[j] == uses.drop_last()[j]);
    } else {
        assert(uses[uses.len() - 1] == uses.last());
    }
}

proof fn lemma_nothing_to_hoist(uses: Seq<DepUse>, name: Seq<char>)
    requires
        forall|j: int|
            0 <= j < uses.len() ==> (#[trigger] uses[j]).local || uses[j].version is None
                || any_local(uses, uses[j].name),
    ensures
        hoisted_version(uses, name) is None,
{
    if !any_local(uses, name) && first_version(uses, name) is Some {
        lemma_first_version_witness(uses, name);
        let j = choose|j: int|
            0 <= j < uses.len() && (#[trigger] uses[j]).name == name && uses[j].version is Some;
        lemma_not_local_use(uses, name, j);
    }
}

proof fn lemma_added_zero(ws0: Entries, names: Seq<Seq<char>>, uses: Seq<DepUse>)
    requires
        forall|j: int|
            0 <= j < uses.len() ==> (#[trigger] uses[j]).local || uses[j].version is None
                || any_local(uses, uses[j].name),
    ensures
        added_count(ws0, names, uses) == 0,
        hoist_into(ws0, names, uses) == ws0,
    decreases names.len(),
{
    if names.len() > 0 {
        lemma_added_zero(ws0, names.drop_last(), uses);
        lemma_nothing_to_hoist(uses, names.last());
    }
}

/// Hoisting is settled after one run: on the rewritten member manifests, a
/// second run rewrites nothing and adds nothing to `workspace.dependencies`.
/// (Stated for manifests whose dependency tables have distinct keys, as
/// parsed TOML tables always do.)
pub proof fn law_hoist_again_changes_nothing(
    before: Seq<Entries>,
    after: Seq<Entries>,
    sections: Seq<Seq<char>>,
    ws: Entries,
)
    requires
        after.len() == before.len(),
        forall|i: int|
            0 <= i < before.len() ==> deferred_manifest(
                #[trigger] before[i],
                after[i],
                sections,
                local_names(member_uses(before, sections)),
            ),
        forall|i: int, k: Seq<char>|
            0 <= i < before.len() && #[trigger] section_table(before[i], k) is Some ==> distinct_keys(
                section_table(before[i], k).unwrap(),
            ),
    ensures
        update_count(after, sections, local_names(member_uses(after, sections))) == 0,
        added_count(ws, dep_names(member_uses(after, sections)), member_uses(after, sections)) == 0,
        hoist_into(ws, dep_names(member_uses(after, sections)), member_uses(after, sections)) == ws,
{
    let l1 = local_names(member_uses(before, sections));
    let uses2 = member_uses(after, sections);
    let l2 = local_names(uses2);
    assert forall|n: Seq<char>| l1.contains(n) implies #[trigger] l2.contains(n) by {
        lemma_members_keep_local(before, after, sections, l1, n);
    }
    lemma_members_settled(before, after, sections, l1, l2);
    lemma_added_zero(ws, dep_names(uses2), uses2);
}

/// A rewritten member table: every declaration that is rewritten now reads
/// `workspace = true` and would not be rewritten again.
pub proof fn law_rewritten_declarations_read_workspace(
    before: Entries,
    after: Entries,
    local: Set<Seq<char>>,
    k: Seq<char>,
    n: TomlNode,
)
    requires
        deferred_table(before, after, local),
        lookup(before, k) == Some(n),
        rewrites(k, n, local),
    ensures
        lookup(after, k) matches Some(m) && dep_is_workspace(m) && !qualifies(m),
{
    assert(lookup(after, k) == Some(deferred(n)));
    law_deferred_reads_workspace(n);
}

/// A rewritten member table: a dependency skipped because some declaration
/// of it is local keeps every declaration exactly as it was.
pub proof fn law_local_dependencies_left_alone(
    before: Entries,
    after: Entries,
    local: Set<Seq<char>>,
    k: Seq<char>,
)
    requires
        deferred_table(before, after, local),
        local.contains(k),
    ensures
        lookup(after, k) == lookup(before, k),
{
    assert(lookup(after, k) == defer_lookup(lookup(before, k), k, local));
}

// ---------------------------------------------------------------- sorting a whole manifest

/// A table in sorted form: distinct keys, no empty slots, keys in order.
spec fn sorted_table(t: Entries, prefix: Option<Seq<char>>) -> bool {
    &&& distinct_keys(t)
    &&& forall|i: int| 0 <= i < t.len() ==> !((#[trigger] t[i]).1 is Absent)
    &&& arranged(keys_of(t), prefix)
}

/// A table that sorting leaves as it is: nothing visible, or sorted form.
spec fn settled(t: Entries, prefix: Option<Seq<char>>) -> bool {
    visible(t).len() == 0 || sorted_table(t, prefix)
}

/// Whether key `k` holds a table with visible entries.
spec fn table_flag(x: Entries, k: Seq<char>) -> bool {
    lookup(x, k) matches Some(TomlNode::Table(t)) && visible(t).len() > 0
}

/// Whether any of the sections holds a table with visible entries.
spec fn sections_flag(x: Entries, sections: Seq<Seq<char>>) -> bool {
    exists|i: int| 0 <= i < sections.len() && table_flag(x, #[trigger] sections[i])
}

proof fn lemma_entry_at_keys(e: Entries, k: Seq<char>)
    ensures
        entry_at(e, k) is Some <==> keys_of(e).contains(k),
    decreases e.len(),
{
    if e.len() > 0 {
        let rest = e.drop_first();
        lemma_entry_at_keys(rest, k);
        assert(keys_of(e) =~= seq![e[0].0] + keys_of(rest));
        if keys_of(rest).contains(k) {
            let j = choose|j: int| 0 <= j < keys_of(rest).len() && keys_of(rest)[j] == k;
            assert(keys_of(e)[j + 1] == k);
        }
        if keys_of(e).contains(k) && e[0].0 != k {
            let j = choose|j: int| 0 <= j < keys_of(e).len() && keys_of(e)[j] == k;
            assert(j > 0);
            assert(keys_of(rest)[j - 1] == k);
        }
        if e[0].0 == k {
            assert(keys_of(e)[0] == k);
        }
    }
}

proof fn lemma_rest_distinct(e: Entries)
    requires
        distinct_keys(e),
        e.len() > 0,
    ensures
        distinct_keys(e.drop_first()),
        forall|i: int| 0 <= i < e.drop_first().len() ==> (#[trigger] e.drop_first()[i]).0 != e[0].0,
{
    assert forall|i: int, j: int| 0 <= i < j < e.drop_first().len() implies e.drop_first()[i].0
        != e.drop_first()[j].0 by {
        assert(e.drop_first()[i] == e[i + 1]);
        assert(e.drop_first()[j] == e[j + 1]);
    }
    assert forall|i: int| 0 <= i < e.drop_first().len() implies (#[trigger] e.drop_first()[i]).0
        != e[0].0 by {
        assert(e.drop_first()[i] == e[i + 1]);
    }
}

/// The visible entries of a table with distinct keys: distinct, each found by lookup.
proof fn lemma_visible_entries(e: Entries)
    requires
        distinct_keys(e),
    ensures
        distinct_keys(visible(e)),
        forall|i: int|
            0 <= i < visible(e).len() ==> lookup(e, (#[trigger] visible(e)[i]).0) == Some(
                visible(e)[i].1,
            ),
    decreases e.len(),
{
    if e.len() > 0 {
        let rest = e.drop_first();
        lemma_rest_distinct(e);
        lemma_visible_entries(rest);
        let vr = visible(rest);
        assert forall|i: int| 0 <= i < vr.len() implies (#[trigger] vr[i]).0 != e[0].0 && lookup(
            e,
            vr[i].0,
        ) == Some(vr[i].1) by {
            assert(lookup(rest, vr[i].0) is Some);
            lemma_entry_at_keys(rest, vr[i].0);
            let j = choose|j: int| 0 <= j < keys_of(rest).len() && keys_of(rest)[j] == vr[i].0;
            assert(rest[j].0 == vr[i].0);
        }
        if !(e[0].1 is Absent) {
            let ve = visible(e);
            assert(ve =~= seq![e[0]] + vr);
            assert forall|i: int| 0 <= i < ve.len() implies lookup(e, (#[trigger] ve[i]).0) == Some(
                ve[i].1,
            ) by {
                if i > 0 {
                    assert(ve[i] == vr[i - 1]);
                }
            }
            assert forall|i: int, j: int| 0 <= i < j < ve.len() implies ve[i].0 != ve[j].0 by {
                assert(ve[j] == vr[j - 1]);
                if i > 0 {
                    assert(ve[i] == vr[i - 1]);
                }
            }
        }
    }
}

/// Sorting a table with distinct keys gives the sorted form of its visible
/// entries, with the same lookups.
proof fn lemma_sorted_entries_facts(e: Entries, prefix: Option<Seq<char>>)
    requires
        distinct_keys(e),
    ensures
        sorted_table(sorted_entries(e, prefix), prefix),
        sorted_entries(e, prefix).len() == visible(e).len(),
        forall|k: Seq<char>| #[trigger] lookup(sorted_entries(e, prefix), k) == lookup(e, k),
{
    broadcast use vstd::seq_lib::group_to_multiset_ensures;

    let s = sorted_entries(e, prefix);
    let ve = visible(e);
    let kv = keys_of(ve);
    let sk = sorted_keys(kv, prefix);
    lemma_visible_entries(e);
    law_sorted_entries_are_sorted_permutation(e, prefix);
    lemma_key_order_total(prefix);
    kv.lemma_sort_by_ensures(key_order(prefix));
    assert(keys_of(s) =~= sk);
    assert(sk.len() == kv.len()) by {
        assert(sk.to_multiset().len() == sk.len());
        assert(kv.to_multiset().len() == kv.len());
    }
    assert forall|i: int| 0 <= i < sk.len() implies lookup(e, #[trigger] sk[i]) is Some by {
        assert(sk.contains(sk[i]));
        assert(kv.to_multiset().count(sk[i]) > 0);
        assert(kv.contains(sk[i]));
        let j = choose|j: int| 0 <= j < kv.len() && kv[j] == sk[i];
        assert(ve[j].0 == sk[i]);
    }
    assert forall|i: int| 0 <= i < s.len() implies !((#[trigger] s[i]).1 is Absent) by {
        assert(s[i].0 == sk[i]);
        assert(lookup(e, sk[i]) is Some);
    }
    assert(kv.no_duplicates()) by {
        assert forall|i: int, j: int| 0 <= i < kv.len() && 0 <= j < kv.len() && i != j implies kv[i]
            != kv[j] by {
            if i < j {
                assert(ve[i].0 != ve[j].0);
            } else {
                assert(ve[j].0 != ve[i].0);
            }
        }
    }
    kv.lemma_multiset_has_no_duplicates();
    sk.lemma_multiset_has_no_duplicates_conv();
    assert forall|i: int, j: int| 0 <= i < j < s.len() implies s[i].0 != s[j].0 by {
        assert(s[i].0 == sk[i]);
        assert(s[j].0 == sk[j]);
    }
    assert forall|k: Seq<char>| #[trigger] lookup(s, k) == lookup(e, k) by {
        if lookup(e, k) is Some {
            let v = lookup(e, k).unwrap();
            crate::model::lemma_lookup_is_visible(e, k);
            assert(kv.to_multiset().count(k) > 0);
            assert(sk.contains(k));
            let i = choose|i: int| 0 <= i < sk.len() && sk[i] == k;
            assert(s[i] == (k, v));
            assert forall|j: int| 0 <= j < s.len() && (#[trigger] s[j]).0 == k implies s[j].1 == v by {
                if j < i {
                    assert(s[j].0 != s[i].0);
                } else if j > i {
                    assert(s[i].0 != s[j].0);
                }
            }
            lemma_lookup_uniform(s, k, v, i);
        } else if entry_at(s, k) is Some {
            lemma_entry_at_keys(s, k);
            let i = choose|i: int| 0 <= i < keys_of(s).len() && keys_of(s)[i] == k;
            assert(sk[i] == k);
            assert(lookup(e, sk[i]) is Some);
        }
    }
}

/// A table in sorted form is one that sorting leaves as it is.
proof fn lemma_sorted_table_stays(t: Entries, prefix: Option<Seq<char>>)
    requires
        sorted_table(t, prefix),
    ensures
        table_after_sort(t, prefix) == t,
{
    if visible(t).len() > 0 {
        lemma_visible_of_present(t);
        let k = keys_of(t);
        lemma_arranged_is_sorted_keys(k, k, prefix);
        let s = sorted_entries(t, prefix);
        assert forall|i: int| 0 <= i < t.len() implies s[i] == t[i] by {
            assert forall|j: int| 0 <= j < t.len() && (#[trigger] t[j]).0 == t[i].0 implies t[j].1
                == t[i].1 by {
                if j < i {
                    assert(t[j].0 != t[i].0);
                } else if j > i {
                    assert(t[i].0 != t[j].0);
                }
            }
            lemma_lookup_uniform(t, t[i].0, t[i].1, i);
        }
        assert(s =~= t);
    }
}

proof fn lemma_settled_stays(t: Entries, prefix: Option<Seq<char>>)
    requires
        settled(t, prefix),
    ensures
        table_after_sort(t, prefix) == t,
{
    if visible(t).len() > 0 {
        lemma_sorted_table_stays(t, prefix);
    }
}

/// Sorting a table with distinct keys settles it, keeps its lookups and
/// whether it has visible entries.
proof fn lemma_sort_settles(t: Entries, prefix: Option<Seq<char>>)
    requires
        distinct_keys(t),
    ensures
        settled(table_after_sort(t, prefix), prefix),
        table_after_sort(table_after_sort(t, prefix), prefix) == table_after_sort(t, prefix),
        visible(table_after_sort(t, prefix)).len() > 0 <==> visible(t).len() > 0,
        distinct_keys(table_after_sort(t, prefix)),
        forall|k: Seq<char>| #[trigger] lookup(table_after_sort(t, prefix), k) == lookup(t, k),
{
    if visible(t).len() > 0 {
        let s = sorted_entries(t, prefix);
        lemma_sorted_entries_facts(t, prefix);
        lemma_visible_of_present(s);
        lemma_sorted_table_stays(s, prefix);
    }
}

proof fn lemma_sort_keeps_nested(t: Entries, prefix: Option<Seq<char>>)
    requires
        nested_keys_distinct(t),
    ensures
        nested_keys_distinct(table_after_sort(t, prefix)),
{
    lemma_sort_settles(t, prefix);
    let s = table_after_sort(t, prefix);
    assert forall|k: Seq<char>|
        (#[trigger] lookup(s, k) matches Some(TomlNode::Table(u)) ==> distinct_keys(u)) by {
        assert(lookup(s, k) == lookup(t, k));
    }
}

/// Inserting under a present key replaces that entry in place.
proof fn lemma_insert_in_place(e: Entries, k: Seq<char>, v: TomlNode)
    requires
        entry_at(e, k) is Some,
    ensures
        insert_entry(e, k, v).len() == e.len(),
        forall|i: int|
            0 <= i < e.len() ==> (#[trigger] insert_entry(e, k, v)[i]).0 == e[i].0 && (insert_entry(
                e,
                k,
                v,
            )[i].1 == e[i].1 || insert_entry(e, k, v)[i].1 == v),
    decreases e.len(),
{
    if e[0].0 != k {
        let rest = e.drop_first();
        lemma_insert_in_place(rest, k, v);
        let a = seq![e[0]] + insert_entry(rest, k, v);
        assert forall|i: int| 0 <= i < e.len() implies (#[trigger] a[i]).0 == e[i].0 && (a[i].1
            == e[i].1 || a[i].1 == v) by {
            if i > 0 {
                assert(a[i] == insert_entry(rest, k, v)[i - 1]);
                assert(e[i] == rest[i - 1]);
            }
        }
    }
}

/// Replacing a visible entry of a settled table by a non-empty one keeps it
/// settled, with visible entries.
proof fn lemma_settled_insert(t: Entries, k: Seq<char>, v: TomlNode, prefix: Option<Seq<char>>)
    requires
        settled(t, prefix),
        lookup(t, k) is Some,
        !(v is Absent),
    ensures
        settled(insert_entry(t, k, v), prefix),
        visible(insert_entry(t, k, v)).len() > 0,
{
    crate::model::lemma_lookup_is_visible(t, k);
    let a = insert_entry(t, k, v);
    lemma_insert_in_place(t, k, v);
    assert(keys_of(a) =~= keys_of(t));
    assert forall|i: int| 0 <= i < a.len() implies !((#[trigger] a[i]).1 is Absent) by {
        assert(!(t[i].1 is Absent));
    }
    assert forall|i: int, j: int| 0 <= i < j < a.len() implies a[i].0 != a[j].0 by {
        assert(t[i].0 != t[j].0);
    }
    lemma_visible_of_present(a);
    lemma_visible_of_present(t);
}

/// Sorting the members array twice gives what sorting it once gives.
proof fn lemma_members_stay(slots: Seq<TomlNode>)
    ensures
        sorted_members(sorted_members(slots)) == sorted_members(slots),
{
    law_sorted_members_are_sorted(slots);
    let s = sorted_keys(texts_of(slots), None);
    lemma_arranged_is_sorted_keys(s, s, None);
}

/// The `workspace` table: sorting it a second time changes nothing, keeps it
/// settled when it was, and keeps whether it has visible entries.
proof fn lemma_workspace_table_stays(ws: Entries, prefix: Option<Seq<char>>)
    requires
        nested_keys_distinct(ws),
    ensures
        sort_workspace_table(sort_workspace_table(ws, prefix).0, prefix) == sort_workspace_table(
            ws,
            prefix,
        ),
        settled(ws, prefix) ==> settled(sort_workspace_table(ws, prefix).0, prefix),
        visible(sort_workspace_table(ws, prefix).0).len() > 0 <==> visible(ws).len() > 0,
{
    reveal_strlit("dependencies");
    reveal_strlit("members");
    let dk = "dependencies"@;
    let mk = "members"@;
    assert(dk.len() != mk.len());
    let (ws1, m1) = match lookup(ws, dk) {
        Some(TomlNode::Table(d)) => (
            insert_entry(ws, dk, TomlNode::Table(table_after_sort(d, prefix))),
            visible(d).len() > 0,
        ),
        _ => (ws, false),
    };
    let (ws2, m) = sort_workspace_table(ws, prefix);
    if let Some(TomlNode::Table(d)) = lookup(ws, dk) {
        let d2 = table_after_sort(d, prefix);
        lemma_sort_settles(d, prefix);
        lemma_insert_then_lookup(ws, dk, TomlNode::Table(d2), dk);
        lemma_insert_then_lookup(ws, dk, TomlNode::Table(d2), mk);
        crate::model::lemma_lookup_is_visible(ws, dk);
        if settled(ws, prefix) {
            lemma_settled_insert(ws, dk, TomlNode::Table(d2), prefix);
        }
        crate::model::lemma_lookup_is_visible(ws1, dk);
    }
    if let Some(TomlNode::Array(slots)) = lookup(ws1, mk) {
        let sm = sorted_members(slots);
        lemma_insert_then_lookup(ws1, mk, TomlNode::Array(sm), dk);
        lemma_insert_then_lookup(ws1, mk, TomlNode::Array(sm), mk);
        lemma_members_stay(slots);
        lemma_insert_present(ws2, mk, TomlNode::Array(sm));
        crate::model::lemma_lookup_is_visible(ws1, mk);
        crate::model::lemma_lookup_is_visible(ws2, mk);
        if settled(ws1, prefix) {
            lemma_settled_insert(ws1, mk, TomlNode::Array(sm), prefix);
        }
    }
    assert(ws2 == (match lookup(ws1, mk) {
        Some(TomlNode::Array(slots)) => insert_entry(ws1, mk, TomlNode::Array(sorted_members(slots))),
        _ => ws1,
    }));
    if let Some(TomlNode::Table(d)) = lookup(ws, dk) {
        let d2 = table_after_sort(d, prefix);
        assert(lookup(ws2, dk) == Some(TomlNode::Table(d2)));
        assert(entry_at(ws2, dk) == Some(TomlNode::Table(d2)));
        lemma_insert_present(ws2, dk, TomlNode::Table(d2));
    } else {
        assert(lookup(ws2, dk) == lookup(ws, dk));
    }
}

/// Sorting sections whose tables are settled changes nothing.
proof fn lemma_sections_stay(x: Entries, sections: Seq<Seq<char>>, prefix: Option<Seq<char>>)
    requires
        forall|k: Seq<char>|
            sections.contains(k) ==> (#[trigger] lookup(x, k) matches Some(TomlNode::Table(t))
                ==> settled(t, prefix)),
    ensures
        sort_sections(x, sections, prefix) == (x, sections_flag(x, sections)),
    decreases sections.len(),
{
    if sections.len() > 0 {
        let rest = sections.drop_last();
        let s = sections.last();
        assert forall|k: Seq<char>| rest.contains(k) implies sections.contains(k) by {
            let i = choose|i: int| 0 <= i < rest.len() && rest[i] == k;
            assert(sections[i] == k);
        }
        lemma_sections_stay(x, rest, prefix);
        assert(sections.contains(s)) by {
            assert(sections[sections.len() - 1] == s);
        }
        if let Some(TomlNode::Table(t)) = lookup(x, s) {
            lemma_settled_stays(t, prefix);
            lemma_insert_present(x, s, TomlNode::Table(t));
        }
        lemma_flag_step(x, sections);
    }
}

proof fn lemma_flag_step(x: Entries, sections: Seq<Seq<char>>)
    requires
        sections.len() > 0,
    ensures
        sections_flag(x, sections) == (sections_flag(x, sections.drop_last()) || table_flag(
            x,
            sections.last(),
        )),
{
    let rest = sections.drop_last();
    if sections_flag(x, sections) {
        let i = choose|i: int| 0 <= i < sections.len() && table_flag(x, #[trigger] sections[i]);
        if i < rest.len() {
            assert(rest[i] == sections[i]);
        }
    }
    if sections_flag(x, rest) {
        let i = choose|i: int| 0 <= i < rest.len() && table_flag(x, #[trigger] rest[i]);
        assert(sections[i] == rest[i]);
    }
    if table_flag(x, sections.last()) {
        assert(sections[sections.len() - 1] == sections.last());
    }
}

proof fn lemma_flag_same(x: Entries, y: Entries, sections: Seq<Seq<char>>)
    requires
        forall|k: Seq<char>| table_flag(x, k) == #[trigger] table_flag(y, k),
    ensures
        sections_flag(x, sections) == sections_flag(y, sections),
{
    if sections_flag(x, sections) {
        let i = choose|i: int| 0 <= i < sections.len() && table_flag(x, #[trigger] sections[i]);
        assert(table_flag(y, sections[i]));
    }
    if sections_flag(y, sections) {
        let i = choose|i: int| 0 <= i < sections.len() && table_flag(y, #[trigger] sections[i]);
        assert(table_flag(x, sections[i]));
    }
}

/// Sorting sections settles every listed table, keeps key distinctness, and
/// reports whether any listed table has visible entries.
proof fn lemma_sections_settle(root: Entries, sections: Seq<Seq<char>>, prefix: Option<Seq<char>>)
    requires
        forall|k: Seq<char>|
            #[trigger] lookup(root, k) matches Some(TomlNode::Table(t)) ==> nested_keys_distinct(t),
    ensures
        forall|k: Seq<char>|
            #[trigger] lookup(sort_sections(root, sections, prefix).0, k) matches Some(
                TomlNode::Table(t),
            ) ==> nested_keys_distinct(t) && (sections.contains(k) ==> settled(t, prefix)),
        sort_sections(root, sections, prefix).1 == sections_flag(
            sort_sections(root, sections, prefix).0,
            sections,
        ),
    decreases sections.len(),
{
    let r = sort_sections(root, sections, prefix);
    if sections.len() > 0 {
        let rest = sections.drop_last();
        let s = sections.last();
        lemma_sections_settle(root, rest, prefix);
        let r1 = sort_sections(root, rest, prefix);
        assert forall|k: Seq<char>| sections.contains(k) && k != s implies rest.contains(k) by {
            let i = choose|i: int| 0 <= i < sections.len() && sections[i] == k;
            assert(i < rest.len());
            assert(rest[i] == k);
        }
        if let Some(TomlNode::Table(t)) = lookup(r1.0, s) {
            let t2 = table_after_sort(t, prefix);
            lemma_sort_settles(t, prefix);
            lemma_sort_keeps_nested(t, prefix);
            assert forall|k: Seq<char>| (#[trigger] lookup(r.0, k) matches Some(TomlNode::Table(u))
                ==> nested_keys_distinct(u) && (sections.contains(k) ==> settled(u, prefix))) by {
                lemma_insert_then_lookup(r1.0, s, TomlNode::Table(t2), k);
            }
            assert forall|k: Seq<char>| table_flag(r1.0, k) == #[trigger] table_flag(r.0, k) by {
                lemma_insert_then_lookup(r1.0, s, TomlNode::Table(t2), k);
            }
            lemma_flag_same(r1.0, r.0, rest);
        } else {
            assert forall|k: Seq<char>| (#[trigger] lookup(r.0, k) matches Some(TomlNode::Table(u))
                ==> nested_keys_distinct(u) && (sections.contains(k) ==> settled(u, prefix))) by {
                if k == s {
                    assert(lookup(r1.0, s) == lookup(r.0, k));
                }
            }
        }
        lemma_flag_step(r.0, sections);
    }
}

/// Sorting a whole manifest a second time changes nothing: the same root
/// table, and the same answer to whether anything counted as modified.
pub proof fn law_sort_document_idempotent(
    root: Entries,
    sections: Seq<Seq<char>>,
    prefix: Option<Seq<char>>,
)
    requires
        forall|k: Seq<char>|
            #[trigger] lookup(root, k) matches Some(TomlNode::Table(t)) ==> nested_keys_distinct(t),
    ensures
        sorted_document(sorted_document(root, sections, prefix).0, sections, prefix)
            == sorted_document(root, sections, prefix),
{
    reveal_strlit("workspace");
    let wk = "workspace"@;
    let r = sort_sections(root, sections, prefix);
    lemma_sections_settle(root, sections, prefix);
    if let Some(TomlNode::Table(ws1)) = lookup(r.0, wk) {
        let (ws2, m2) = sort_workspace_table(ws1, prefix);
        let root2 = insert_entry(r.0, wk, TomlNode::Table(ws2));
        lemma_workspace_table_stays(ws1, prefix);
        assert forall|k: Seq<char>|
            sections.contains(k) implies (#[trigger] lookup(root2, k) matches Some(TomlNode::Table(t))
                ==> settled(t, prefix)) by {
            lemma_insert_then_lookup(r.0, wk, TomlNode::Table(ws2), k);
        }
        lemma_sections_stay(root2, sections, prefix);
        assert forall|k: Seq<char>| table_flag(r.0, k) == #[trigger] table_flag(root2, k) by {
            lemma_insert_then_lookup(r.0, wk, TomlNode::Table(ws2), k);
        }
        lemma_flag_same(r.0, root2, sections);
        lemma_insert_then_lookup(r.0, wk, TomlNode::Table(ws2), wk);
        lemma_insert_present(root2, wk, TomlNode::Table(ws2));
    } else {
        lemma_sections_stay(r.0, sections, prefix);
    }
}


// ---------------------------------------------------------------- what each operation is for

/// Setting `workspace.dependencies` changes nothing else: every other key of
/// the root keeps what it held, the `workspace` table keeps every key but
/// `dependencies` (and holds nothing else when there was none), and
/// `dependencies` holds `deps`.
pub proof fn law_workspace_deps_keep_others(root: Entries, deps: Entries, k: Seq<char>)
    ensures
        k != "workspace"@ ==> lookup(with_workspace_deps(root, deps), k) == lookup(root, k),
        lookup(with_workspace_deps(root, deps), "workspace"@) matches Some(TomlNode::Table(ws2)) && (
        k != "dependencies"@ ==> lookup(ws2, k) == match lookup(root, "workspace"@) {
            Some(TomlNode::Table(ws)) => lookup(ws, k),
            _ => None,
        }) && lookup(ws2, "dependencies"@) == Some(TomlNode::Table(deps)),
{
    let ws1 = insert_entry(workspace_of(root), "dependencies"@, TomlNode::Table(deps));
    lemma_insert_then_lookup(root, "workspace"@, TomlNode::Table(ws1), k);
    lemma_insert_then_lookup(root, "workspace"@, TomlNode::Table(ws1), "workspace"@);
    lemma_insert_then_lookup(workspace_of(root), "dependencies"@, TomlNode::Table(deps), k);
    lemma_insert_then_lookup(
        workspace_of(root),
        "dependencies"@,
        TomlNode::Table(deps),
        "dependencies"@,
    );
    assert(entry_at(Seq::<(Seq<char>, TomlNode)>::empty(), k) is None);
}

/// A declaration that qualifies reads differently once rewritten.
proof fn lemma_deferred_differs(n: TomlNode)
    requires
        qualifies(n),
    ensures
        deferred(n) != n,
{
    match n {
        TomlNode::Inline(e) => {
            law_defer_keeps_other_keys(e, "workspace"@);
        },
        TomlNode::Table(e) => {
            law_defer_keeps_other_keys(e, "workspace"@);
        },
        _ => {},
    }
}

/// Rewriting a dependency table changes only declarations with a version
/// requirement and no `path`, that do not defer to the workspace yet and whose
/// dependency is not skipped as local; each such one then defers to the
/// workspace.
pub proof fn law_only_versioned_declarations_rewritten(
    before: Entries,
    after: Entries,
    local: Set<Seq<char>>,
    k: Seq<char>,
)
    requires
        deferred_table(before, after, local),
    ensures
        lookup(after, k) != lookup(before, k) ==> {
            &&& lookup(before, k) matches Some(n)
            &&& dep_version(n) is Some
            &&& !dep_has_path(n)
            &&& !dep_is_workspace(n)
            &&& !local.contains(k)
            &&& lookup(after, k) is Some
            &&& dep_is_workspace(lookup(after, k).unwrap())
        },
{
    assert(lookup(after, k) == defer_lookup(lookup(before, k), k, local));
    if let Some(n) = lookup(before, k) {
        if rewrites(k, n, local) {
            law_deferred_reads_workspace(n);
        }
    }
}

/// How many of the entries `v` read differently in `after`.
pub open spec fn changed_count(v: Entries, after: Entries) -> nat
    decreases v.len(),
{
    if v.len() == 0 {
        0
    } else {
        changed_count(v.drop_last(), after) + if lookup(after, v.last().0) != Some(v.last().1) {
            1nat
        } else {
            0nat
        }
    }
}

proof fn lemma_changed_count(
    before: Entries,
    after: Entries,
    local: Set<Seq<char>>,
    v: Entries,
)
    requires
        deferred_table(before, after, local),
        forall|j: int| 0 <= j < v.len() ==> lookup(before, (#[trigger] v[j]).0) == Some(v[j].1),
    ensures
        changed_count(v, after) == qualifying_count(v, local),
    decreases v.len(),
{
    if v.len() > 0 {
        assert forall|j: int| 0 <= j < v.drop_last().len() implies lookup(
            before,
            (#[trigger] v.drop_last()[j]).0,
        ) == Some(v.drop_last()[j].1) by {
            assert(v.drop_last()[j] == v[j]);
        }
        lemma_changed_count(before, after, local, v.drop_last());
        let (k, n) = v.last();
        assert(v[v.len() - 1] == v.last());
        assert(lookup(before, k) == Some(n));
        assert(lookup(after, k) == defer_lookup(Some(n), k, local));
        if rewrites(k, n, local) {
            lemma_deferred_differs(n);
        }
    }
}

/// The number of declarations that rewriting a dependency table reports is
/// the number of its entries that read differently afterwards.
pub proof fn law_update_count_counts_changes(before: Entries, after: Entries, local: Set<Seq<char>>)
    requires
        distinct_keys(before),
        deferred_table(before, after, local),
    ensures
        changed_count(visible(before), after) == qualifying_count(visible(before), local),
{
    lemma_visible_entries(before);
    lemma_changed_count(before, after, local, visible(before));
}

/// The default configuration ignores exactly `target`, `.git`,
/// `node_modules`, `vendor`, `.config` and `.cargo`.
pub proof fn law_default_ignores(name: Seq<char>)
    ensures
        HoistConfig::new_config_ignores().contains(name) <==> (name == "target"@ || name == ".git"@
            || name == "node_modules"@ || name == "vendor"@ || name == ".config"@ || name
            == ".cargo"@),
{
}

/// A sorted table with a priority prefix: every key that starts with the
/// prefix (the prefix itself included) comes before every key that does not,
/// and within each group keys are in string order.
pub proof fn law_prefixed_keys_first(e: Entries, p: Seq<char>)
    ensures
        forall|i: int, j: int|
            0 <= i < keys_of(sorted_entries(e, Some(p))).len() && 0 <= j < keys_of(
                sorted_entries(e, Some(p)),
            ).len() && has_prefix(#[trigger] keys_of(sorted_entries(e, Some(p)))[i], p)
                && !has_prefix(#[trigger] keys_of(sorted_entries(e, Some(p)))[j], p) ==> i < j,
        forall|i: int, j: int|
            0 <= i < j < keys_of(sorted_entries(e, Some(p))).len() && has_prefix(
                #[trigger] keys_of(sorted_entries(e, Some(p)))[i],
                p,
            ) == has_prefix(#[trigger] keys_of(sorted_entries(e, Some(p)))[j], p) ==> text_le(
                keys_of(sorted_entries(e, Some(p)))[i],
                keys_of(sorted_entries(e, Some(p)))[j],
            ),
{
    let s = keys_of(sorted_entries(e, Some(p)));
    law_sorted_entries_are_sorted_permutation(e, Some(p));
    assert forall|i: int, j: int|
        0 <= i < s.len() && 0 <= j < s.len() && has_prefix(#[trigger] s[i], p) && !has_prefix(
            #[trigger] s[j],
            p,
        ) implies i < j by {
        if j < i {
            assert(crate::sorting::key_before(s[j], s[i], Some(p)));
        }
    }
    assert forall|i: int, j: int|
        0 <= i < j < s.len() && has_prefix(#[trigger] s[i], p) == has_prefix(#[trigger] s[j], p)
            implies text_le(s[i], s[j]) by {
        assert(crate::sorting::key_before(s[i], s[j], Some(p)));
    }
}

/// A sorted table with no priority prefix: keys in string order.
pub proof fn law_keys_in_string_order(e: Entries)
    ensures
        forall|i: int, j: int|
            0 <= i < j < keys_of(sorted_entries(e, None)).len() ==> text_le(
                #[trigger] keys_of(sorted_entries(e, None))[i],
                #[trigger] keys_of(sorted_entries(e, None))[j],
            ),
{
    let s = keys_of(sorted_entries(e, None));
    law_sorted_entries_are_sorted_permutation(e, None);
    assert forall|i: int, j: int| 0 <= i < j < s.len() implies text_le(
        #[trigger] s[i],
        #[trigger] s[j],
    ) by {
        assert(crate::sorting::key_before(s[i], s[j], None));
    }
}

} // verus!
